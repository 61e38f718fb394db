//! Level files: a rectangular grid of characters, one row per line.
//! `.` is floor, `P` the player's start, `G` the goal and `1` to `3` walls of
//! three materials. The player must not be able to walk off the grid.
use vstd::prelude::*;
use vstd::string::StringSliceAdditionalSpecFns;

verus! {

pub const EMPTY_TILE: u8 = 0;
/// Wall types `1..=WALL_TYPE_COUNT` have a texture.
pub const WALL_TYPE_COUNT: u8 = 3;

/// The cell where the player starts (0-based row and column).
#[derive(Clone, Copy, Debug, PartialEq, Eq)]
pub struct PlayerStart {
    pub row: usize,
    pub column: usize,
}

/// The cell of the goal (0-based row and column).
#[derive(Clone, Copy, Debug, PartialEq, Eq)]
pub struct Goal {
    pub row: usize,
    pub column: usize,
}

/// Why a level was rejected. Rows and columns are 0-based.
#[derive(Clone, Copy, Debug, PartialEq, Eq)]
pub enum LevelError {
    /// A line has no characters.
    EmptyRow { row: usize },
    /// A character that is not part of the format.
    InvalidCharacter { character: u8, row: usize, column: usize },
    /// A digit wall type (4 to 9) without a texture.
    UntexturedWall { wall_type: u8, row: usize, column: usize },
    /// A second `P`.
    DuplicateStart,
    /// A second `G`.
    DuplicateGoal,
    /// A row whose length differs from the first row's.
    NotRectangular,
    /// No rows at all.
    Empty,
    /// No `P`.
    MissingStart,
    /// The player can walk from the start to the edge of the grid.
    Open,
}

/// A parsed level.
#[derive(Debug)]
pub struct Level {
    /// `tiles[row][column]`: 0 for floor, else the wall type.
    pub tiles: Vec<Vec<u8>>,
    pub player_start: PlayerStart,
    pub goal: Option<Goal>,
}

/// A level as values: tiles, start cell and goal cell (row, column).
pub struct LevelModel {
    pub tiles: Seq<Seq<u8>>,
    pub start: (int, int),
    pub goal: Option<(int, int)>,
}

impl Level {
    pub open spec fn model(&self) -> LevelModel {
        LevelModel {
            tiles: self.tiles@.map_values(|row: Vec<u8>| row@),
            start: (self.player_start.row as int, self.player_start.column as int),
            goal: match self.goal {
                Some(goal) => Some((goal.row as int, goal.column as int)),
                None => None,
            },
        }
    }
}

/// The index of the first line feed at or after `i`, or the length of `s`.
pub open spec fn newline_from(s: Seq<u8>, i: int) -> int
    decreases s.len() - i,
{
    if i >= s.len() || s[i] == 10 {
        i
    } else {
        newline_from(s, i + 1)
    }
}

pub proof fn lemma_newline_from(s: Seq<u8>, i: int)
    requires
        0 <= i,
    ensures
        i <= newline_from(s, i),
        i <= s.len() ==> newline_from(s, i) <= s.len(),
        newline_from(s, i) < s.len() ==> s[newline_from(s, i)] == 10,
        forall|k: int| i <= k < newline_from(s, i) ==> s[k] != 10,
    decreases s.len() - i,
{
    if i < s.len() && s[i] != 10 {
        lemma_newline_from(s, i + 1);
    }
}

/// The lines of `s` from byte `start` on, as `str::lines` splits them: at each
/// line feed, dropping a carriage return just before it; a last line without a
/// line feed is kept as it is, and nothing follows a final line feed.
pub open spec fn lines_from(s: Seq<u8>, start: int) -> Seq<Seq<u8>>
    decreases s.len() + 1 - start,
    via lines_from_decreases
{
    if start < 0 || start >= s.len() {
        seq![]
    } else {
        let end = newline_from(s, start);
        let line_end = if end < s.len() && end > start && s[end - 1] == 13 { end - 1 } else { end };
        seq![s.subrange(start, line_end)] + lines_from(s, end + 1)
    }
}

#[via_fn]
proof fn lines_from_decreases(s: Seq<u8>, start: int) {
    if 0 <= start < s.len() {
        lemma_newline_from(s, start);
    }
}

pub open spec fn lines(s: Seq<u8>) -> Seq<Seq<u8>> {
    lines_from(s, 0)
}


/// The tile a level character stands for: floor for `.`, `P` and `G`, the
/// wall type for a digit.
pub open spec fn tile_of(character: u8) -> u8 {
    if 49 <= character <= 57 { (character - 48) as u8 } else { EMPTY_TILE }
}

/// What has been found so far while reading a level: the start and goal cells.
pub struct Findings {
    pub start: Option<(int, int)>,
    pub goal: Option<(int, int)>,
}

/// Reads row `row` (the line `line`) from column `column` on, after `found`:
/// the first character that is not part of the format, or is a second `P`
/// or `G`, is an error; else what has been found at the end of the line.
pub open spec fn read_row(line: Seq<u8>, row: int, column: int, found: Findings) -> Result<Findings, LevelError>
    decreases line.len() - column,
{
    if column < 0 || column >= line.len() {
        Ok(found)
    } else {
        let character = line[column];
        if 52 <= character <= 57 {
            Err(LevelError::UntexturedWall { wall_type: (character - 48) as u8, row: row as usize, column: column as usize })
        } else if !(character == 46 || character == 80 || character == 71 || (49 <= character <= 51)) {
            Err(LevelError::InvalidCharacter { character, row: row as usize, column: column as usize })
        } else if character == 80 {
            if found.start is Some {
                Err(LevelError::DuplicateStart)
            } else {
                read_row(line, row, column + 1, Findings { start: Some((row, column)), ..found })
            }
        } else if character == 71 {
            if found.goal is Some {
                Err(LevelError::DuplicateGoal)
            } else {
                read_row(line, row, column + 1, Findings { goal: Some((row, column)), ..found })
            }
        } else {
            read_row(line, row, column + 1, found)
        }
    }
}

/// Reads the rows from `row` on, after `found`: an empty line, an error in a
/// line, or a line whose length differs from the first line's is an error.
pub open spec fn read_rows(lines: Seq<Seq<u8>>, row: int, found: Findings) -> Result<Findings, LevelError>
    decreases lines.len() - row,
{
    if row < 0 || row >= lines.len() {
        Ok(found)
    } else if lines[row].len() == 0 {
        Err(LevelError::EmptyRow { row: row as usize })
    } else {
        match read_row(lines[row], row, 0, found) {
            Err(error) => Err(error),
            Ok(after) => if row > 0 && lines[row].len() != lines[0].len() {
                Err(LevelError::NotRectangular)
            } else {
                read_rows(lines, row + 1, after)
            },
        }
    }
}

/// The tiles of the lines of a level.
pub open spec fn tiles_of(lines: Seq<Seq<u8>>) -> Seq<Seq<u8>> {
    lines.map_values(|line: Seq<u8>| line.map_values(|character: u8| tile_of(character)))
}


/// A cell (row, column) of the grid.
pub open spec fn in_grid(tiles: Seq<Seq<u8>>, cell: (int, int)) -> bool {
    0 <= cell.0 < tiles.len() && 0 <= cell.1 < tiles[cell.0].len()
}

/// A floor cell (the start and the goal are floor too).
pub open spec fn walkable(tiles: Seq<Seq<u8>>, cell: (int, int)) -> bool {
    in_grid(tiles, cell) && tiles[cell.0][cell.1] == EMPTY_TILE
}

/// Cells that share a side.
pub open spec fn adjacent(a: (int, int), b: (int, int)) -> bool {
    (a.0 == b.0 && (a.1 - b.1 == 1 || b.1 - a.1 == 1)) || (a.1 == b.1 && (a.0 - b.0 == 1 || b.0 - a.0 == 1))
}

/// A walk over floor cells, each step to a neighbouring cell.
pub open spec fn is_walk(tiles: Seq<Seq<u8>>, path: Seq<(int, int)>) -> bool {
    &&& path.len() > 0
    &&& forall|i: int| 0 <= i < path.len() ==> walkable(tiles, #[trigger] path[i])
    &&& forall|i: int| 0 <= i < path.len() - 1 ==> adjacent(#[trigger] path[i], path[i + 1])
}

/// The player can walk from `from` to `to`.
pub open spec fn reachable(tiles: Seq<Seq<u8>>, from: (int, int), to: (int, int)) -> bool {
    exists|path: Seq<(int, int)>| is_walk(tiles, path) && path[0] == from && #[trigger] path.last() == to
}

/// A cell on the outer ring of the grid.
pub open spec fn on_border(tiles: Seq<Seq<u8>>, cell: (int, int)) -> bool {
    cell.0 == 0 || cell.0 == tiles.len() - 1 || cell.1 == 0 || cell.1 == tiles[cell.0].len() - 1
}

/// From `start` the player can walk to the edge of the grid.
pub open spec fn escapes(tiles: Seq<Seq<u8>>, start: (int, int)) -> bool {
    exists|cell: (int, int)| #[trigger] reachable(tiles, start, cell) && on_border(tiles, cell)
}

/// Every row of the grid has `columns` cells.
pub open spec fn is_rectangular(tiles: Seq<Seq<u8>>, columns: int) -> bool {
    forall|row: int| 0 <= row < tiles.len() ==> #[trigger] tiles[row].len() == columns
}

/// A walk can go one step further to a neighbouring floor cell.
proof fn lemma_reach_step(tiles: Seq<Seq<u8>>, start: (int, int), from: (int, int), to: (int, int))
    requires
        reachable(tiles, start, from),
        adjacent(from, to),
        walkable(tiles, to),
    ensures
        reachable(tiles, start, to),
{
    let path = choose|path: Seq<(int, int)>| is_walk(tiles, path) && path[0] == start && #[trigger] path.last() == from;
    let longer = path.push(to);
    assert(longer[longer.len() - 2] == from);
    assert forall|i: int| 0 <= i < longer.len() - 1 implies adjacent(#[trigger] longer[i], longer[i + 1]) by {
        if i < path.len() - 1 {
            assert(longer[i] == path[i] && longer[i + 1] == path[i + 1]);
        }
    }
    assert(longer.last() == to);
}

/// A set of cells that holds the start of a walk and every floor neighbour
/// of its members holds the whole walk.
proof fn lemma_closed_holds_walk(
    tiles: Seq<Seq<u8>>,
    member: spec_fn((int, int)) -> bool,
    path: Seq<(int, int)>,
    i: int,
)
    requires
        is_walk(tiles, path),
        member(path[0]),
        forall|a: (int, int), b: (int, int)|
            #![trigger member(a), walkable(tiles, b)]
            member(a) && in_grid(tiles, a) && adjacent(a, b) && walkable(tiles, b) ==> member(b),
        0 <= i < path.len(),
    ensures
        member(path[i]),
    decreases i,
{
    if i > 0 {
        lemma_closed_holds_walk(tiles, member, path, i - 1);
        assert(adjacent(path[i - 1], path[i]));
        assert(walkable(tiles, path[i]));
        assert(walkable(tiles, path[i - 1]));
    }
}


/// How many entries of `flags` are still false.
pub open spec fn unseen(flags: Seq<bool>) -> nat
    decreases flags.len(),
{
    if flags.len() == 0 {
        0
    } else {
        unseen(flags.drop_last()) + if flags.last() { 0nat } else { 1nat }
    }
}

/// Setting a false entry decreases the count by one.
proof fn lemma_unseen_update(flags: Seq<bool>, i: int)
    requires
        0 <= i < flags.len(),
        !flags[i],
    ensures
        unseen(flags.update(i, true)) + 1 == unseen(flags),
    decreases flags.len(),
{
    let updated = flags.update(i, true);
    if i == flags.len() - 1 {
        assert(updated.drop_last() =~= flags.drop_last());
    } else {
        assert(updated.drop_last() =~= flags.drop_last().update(i, true));
        lemma_unseen_update(flags.drop_last(), i);
    }
}

/// Whether cell `(row, column)` has been seen, in a row-major flag table.
pub open spec fn seen_at(seen: Seq<bool>, columns: int, row: int, column: int) -> bool {
    seen[row * columns + column]
}

/// Every floor neighbour of `(row, column)` has been seen.
pub open spec fn settled(tiles: Seq<Seq<u8>>, seen: Seq<bool>, columns: int, row: int, column: int) -> bool {
    &&& walkable(tiles, (row - 1, column)) ==> seen_at(seen, columns, row - 1, column)
    &&& walkable(tiles, (row + 1, column)) ==> seen_at(seen, columns, row + 1, column)
    &&& walkable(tiles, (row, column - 1)) ==> seen_at(seen, columns, row, column - 1)
    &&& walkable(tiles, (row, column + 1)) ==> seen_at(seen, columns, row, column + 1)
}

/// The grid of a level as values.
pub open spec fn grid_of(tiles: Seq<Vec<u8>>) -> Seq<Seq<u8>> {
    tiles.map_values(|row: Vec<u8>| row@)
}

/// Marks `(row, column)` seen and puts it on the stack, when it is an unseen floor cell.
fn visit(
    tiles: &Vec<Vec<u8>>,
    columns: usize,
    seen: &mut Vec<bool>,
    stack: &mut Vec<(usize, usize)>,
    row: usize,
    column: usize,
)
    requires
        row < tiles@.len(),
        column < columns,
        is_rectangular(grid_of(tiles@), columns as int),
        old(seen)@.len() == tiles@.len() * columns,
    ensures
        ({
            let fresh = walkable(grid_of(tiles@), (row as int, column as int)) && !seen_at(
                old(seen)@,
                columns as int,
                row as int,
                column as int,
            );
            &&& final(seen)@ == if fresh {
                old(seen)@.update(row * columns + column, true)
            } else {
                old(seen)@
            }
            &&& final(stack)@ == if fresh {
                old(stack)@.push((row, column))
            } else {
                old(stack)@
            }
        }),
{
    assert(grid_of(tiles@)[row as int] == tiles@[row as int]@);
    let length = seen.len();
    assert(row * columns + column < tiles@.len() * columns) by (nonlinear_arith)
        requires
            row < tiles@.len(),
            column < columns,
    ;
    let index = row * columns + column;
    if tiles[row][column] == EMPTY_TILE && !seen[index] {
        seen.set(index, true);
        stack.push((row, column));
    }
}


/// What holds of the flood fill while the neighbours of cell `current` are visited.
pub open spec fn fill_state(
    grid: Seq<Seq<u8>>,
    columns: int,
    start: (int, int),
    current: (int, int),
    seen: Seq<bool>,
    stack: Seq<(usize, usize)>,
) -> bool {
    let rows = grid.len() as int;
    &&& seen.len() == rows * columns
    &&& seen_at(seen, columns, start.0, start.1)
    &&& forall|k: int| 0 <= k < stack.len() ==> #[trigger] stack[k].0 < rows && stack[k].1 < columns
        && seen_at(seen, columns, stack[k].0 as int, stack[k].1 as int)
    &&& forall|r: int, col: int|
        0 <= r < rows && 0 <= col < columns && #[trigger] seen_at(seen, columns, r, col) ==> reachable(grid, start, (r, col))
    &&& forall|r: int, col: int|
        0 <= r < rows && 0 <= col < columns && #[trigger] seen_at(seen, columns, r, col) ==> (stack.contains(
            (r as usize, col as usize),
        ) || settled(grid, seen, columns, r, col) || (r, col) == current)
}

/// Two cells of the grid share a flag only when they are the same cell.
proof fn lemma_flag_index(columns: int, r: int, col: int, r2: int, col2: int)
    requires
        columns > 0,
        0 <= r,
        0 <= r2,
        0 <= col < columns,
        0 <= col2 < columns,
        r * columns + col == r2 * columns + col2,
    ensures
        r == r2 && col == col2,
{
    crate::canvas::lemma_index_of_pixel(columns, col, r);
    crate::canvas::lemma_index_of_pixel(columns, col2, r2);
}

/// Visiting neighbour `next` of the reachable cell `current` keeps the fill state,
/// only adds flags, and either sets a flag or leaves the stack as it was.
proof fn lemma_visit_step(
    grid: Seq<Seq<u8>>,
    columns: int,
    start: (int, int),
    current: (int, int),
    next: (int, int),
    seen0: Seq<bool>,
    stack0: Seq<(usize, usize)>,
    seen1: Seq<bool>,
    stack1: Seq<(usize, usize)>,
)
    requires
        columns > 0,
        grid.len() <= usize::MAX,
        columns <= usize::MAX,
        is_rectangular(grid, columns),
        fill_state(grid, columns, start, current, seen0, stack0),
        reachable(grid, start, current),
        adjacent(current, next),
        0 <= next.0 < grid.len(),
        0 <= next.1 < columns,
        ({
            let fresh = walkable(grid, next) && !seen_at(seen0, columns, next.0, next.1);
            &&& seen1 == if fresh { seen0.update(next.0 * columns + next.1, true) } else { seen0 }
            &&& stack1 == if fresh { stack0.push((next.0 as usize, next.1 as usize)) } else { stack0 }
        }),
    ensures
        fill_state(grid, columns, start, current, seen1, stack1),
        forall|r: int, col: int|
            0 <= r < grid.len() && 0 <= col < columns && #[trigger] seen_at(seen0, columns, r, col) ==> seen_at(
                seen1,
                columns,
                r,
                col,
            ),
        walkable(grid, next) ==> seen_at(seen1, columns, next.0, next.1),
        unseen(seen1) < unseen(seen0) || (unseen(seen1) == unseen(seen0) && stack1 == stack0),
{
    let rows = grid.len() as int;
    let fresh = walkable(grid, next) && !seen_at(seen0, columns, next.0, next.1);
    assert(next.0 * columns + next.1 < rows * columns) by (nonlinear_arith)
        requires
            0 <= next.0 < rows,
            0 <= next.1 < columns,
    ;
    if fresh {
        let idx = next.0 * columns + next.1;
        lemma_unseen_update(seen0, idx);
        lemma_reach_step(grid, start, current, next);
        assert forall|r: int, col: int|
            0 <= r < rows && 0 <= col < columns implies #[trigger] seen_at(seen1, columns, r, col) == (seen_at(
            seen0,
            columns,
            r,
            col,
        ) || (r, col) == next) by {
            assert(0 <= r * columns + col < rows * columns) by (nonlinear_arith)
                requires
                    0 <= r < rows,
                    0 <= col < columns,
            ;
            if r * columns + col == idx {
                lemma_flag_index(columns, r, col, next.0, next.1);
            }
        }
        assert forall|k: int| 0 <= k < stack1.len() implies #[trigger] stack1[k].0 < rows && stack1[k].1 < columns
            && seen_at(seen1, columns, stack1[k].0 as int, stack1[k].1 as int) by {
            if k < stack0.len() {
                assert(stack1[k] == stack0[k]);
                assert(seen_at(seen0, columns, stack0[k].0 as int, stack0[k].1 as int));
                assert(stack0[k].0 < rows && stack0[k].1 < columns);
                assert(seen_at(seen1, columns, stack0[k].0 as int, stack0[k].1 as int));
            } else {
                assert(stack1[k] == (next.0 as usize, next.1 as usize));
                assert(stack1[k].0 as int == next.0);
                assert(stack1[k].1 as int == next.1);
                assert(seen1[idx]);
                assert(seen_at(seen1, columns, next.0, next.1));
            }
        }
        assert forall|r: int, col: int|
            0 <= r < rows && 0 <= col < columns && #[trigger] seen_at(seen1, columns, r, col) implies (stack1.contains(
            (r as usize, col as usize),
        ) || settled(grid, seen1, columns, r, col) || (r, col) == current) by {
            if (r, col) == next {
                assert(stack1[stack1.len() - 1] == (r as usize, col as usize));
            } else {
                assert(seen_at(seen0, columns, r, col));
                if stack0.contains((r as usize, col as usize)) {
                    let k = choose|k: int| 0 <= k < stack0.len() && stack0[k] == (r as usize, col as usize);
                    assert(stack1[k] == stack0[k]);
                } else if settled(grid, seen0, columns, r, col) {
                    assert(0 <= r - 1 ==> seen_at(seen0, columns, r - 1, col) ==> seen_at(seen1, columns, r - 1, col));
                    assert(r + 1 < rows ==> seen_at(seen0, columns, r + 1, col) ==> seen_at(seen1, columns, r + 1, col));
                    assert(0 <= col - 1 ==> seen_at(seen0, columns, r, col - 1) ==> seen_at(seen1, columns, r, col - 1));
                    assert(col + 1 < columns ==> seen_at(seen0, columns, r, col + 1) ==> seen_at(seen1, columns, r, col + 1));
                }
            }
        }
    }
}

/// Whether the player can walk from the start to the edge of the grid:
/// a depth-first flood fill over floor cells from the start.
fn can_escape(tiles: &Vec<Vec<u8>>, columns: usize, start_row: usize, start_column: usize) -> (open: bool)
    requires
        tiles@.len() > 0,
        columns > 0,
        is_rectangular(grid_of(tiles@), columns as int),
        tiles@.len() * columns <= usize::MAX,
        walkable(grid_of(tiles@), (start_row as int, start_column as int)),
    ensures
        open == escapes(grid_of(tiles@), (start_row as int, start_column as int)),
{
    let ghost grid = grid_of(tiles@);
    let ghost start = (start_row as int, start_column as int);
    let ghost c = columns as int;
    let rows = tiles.len();
    let total = rows * columns;
    let mut seen: Vec<bool> = Vec::new();
    while seen.len() < total
        invariant
            total == rows * columns,
            seen@.len() <= total,
            forall|i: int| 0 <= i < seen@.len() ==> !#[trigger] seen@[i],
        decreases total - seen@.len(),
    {
        seen.push(false);
    }
    let mut stack: Vec<(usize, usize)> = Vec::new();
    proof {
        assert(start_row * columns + start_column < total) by (nonlinear_arith)
            requires
                start_row < rows,
                start_column < columns,
                total == rows * columns,
        ;
    }
    let ghost blank = seen@;
    visit(tiles, columns, &mut seen, &mut stack, start_row, start_column);
    proof {
        let path = seq![start];
        assert(path.last() == start);
        assert(reachable(grid, start, start));
        assert(!seen_at(blank, c, start.0, start.1));
        assert(stack@[0] == (start_row, start_column));
        assert forall|r: int, col: int|
            0 <= r < rows && 0 <= col < columns && #[trigger] seen_at(seen@, c, r, col) implies (r, col) == start by {
            assert(0 <= r * columns + col < rows * columns) by (nonlinear_arith)
                requires
                    0 <= r < rows,
                    0 <= col < columns,
            ;
            if r * c + col == start.0 * c + start.1 {
                lemma_flag_index(c, r, col, start.0, start.1);
            } else {
                assert(!blank[r * c + col]);
            }
        }
    }
    while stack.len() > 0
        invariant
            grid == grid_of(tiles@),
            c == columns,
            rows == tiles@.len(),
            rows > 0,
            columns > 0,
            total == rows * columns,
            is_rectangular(grid, c),
            walkable(grid, start),
            seen@.len() == total,
            seen_at(seen@, c, start.0, start.1),
            forall|k: int| 0 <= k < stack@.len() ==> #[trigger] stack@[k].0 < rows && stack@[k].1 < columns
                && seen_at(seen@, c, stack@[k].0 as int, stack@[k].1 as int),
            forall|r: int, col: int|
                0 <= r < rows && 0 <= col < columns && #[trigger] seen_at(seen@, c, r, col) ==> reachable(
                    grid,
                    start,
                    (r, col),
                ),
            forall|r: int, col: int|
                0 <= r < rows && 0 <= col < columns && #[trigger] seen_at(seen@, c, r, col) ==> (
                stack@.contains((r as usize, col as usize)) || settled(grid, seen@, c, r, col)),
        decreases unseen(seen@), stack@.len(),
    {
        let ghost before = seen@;
        let ghost stack_before = stack@;
        let (row, column) = stack.pop().unwrap();
        let ghost popped = stack@;
        let ghost cur = (row as int, column as int);
        proof {
            assert(stack_before[stack_before.len() - 1] == (row, column));
            assert(popped =~= stack_before.drop_last());
            assert(row < rows && column < columns && seen_at(before, c, cur.0, cur.1));
            assert forall|k: int| 0 <= k < popped.len() implies #[trigger] popped[k].0 < rows && popped[k].1 < columns
                && seen_at(before, c, popped[k].0 as int, popped[k].1 as int) by {
                assert(popped[k] == stack_before[k]);
            }
            assert forall|r: int, col: int|
                0 <= r < rows && 0 <= col < columns && #[trigger] seen_at(before, c, r, col) implies (popped.contains(
                (r as usize, col as usize),
            ) || settled(grid, before, c, r, col) || (r, col) == cur) by {
                if stack_before.contains((r as usize, col as usize)) && (r, col) != cur {
                    let k = choose|k: int| 0 <= k < stack_before.len() && stack_before[k] == (r as usize, col as usize);
                    assert(k != stack_before.len() - 1);
                    assert(popped[k] == stack_before[k]);
                }
            }
            assert(fill_state(grid, c, start, cur, before, popped));
        }
        let ghost s0 = seen@;
        let ghost k0 = stack@;
        if row > 0 {
            visit(tiles, columns, &mut seen, &mut stack, row - 1, column);
            proof {
                lemma_visit_step(grid, c, start, cur, (cur.0 - 1, cur.1), s0, k0, seen@, stack@);
            }
        }
        let ghost s1 = seen@;
        let ghost k1 = stack@;
        if row + 1 < rows {
            visit(tiles, columns, &mut seen, &mut stack, row + 1, column);
            proof {
                lemma_visit_step(grid, c, start, cur, (cur.0 + 1, cur.1), s1, k1, seen@, stack@);
            }
        }
        let ghost s2 = seen@;
        let ghost k2 = stack@;
        if column > 0 {
            visit(tiles, columns, &mut seen, &mut stack, row, column - 1);
            proof {
                lemma_visit_step(grid, c, start, cur, (cur.0, cur.1 - 1), s2, k2, seen@, stack@);
            }
        }
        let ghost s3 = seen@;
        let ghost k3 = stack@;
        if column + 1 < columns {
            visit(tiles, columns, &mut seen, &mut stack, row, column + 1);
            proof {
                lemma_visit_step(grid, c, start, cur, (cur.0, cur.1 + 1), s3, k3, seen@, stack@);
            }
        }
        proof {
            let s4 = seen@;
            assert(walkable(grid, (cur.0 - 1, cur.1)) ==> seen_at(s4, c, cur.0 - 1, cur.1)) by {
                if walkable(grid, (cur.0 - 1, cur.1)) {
                    assert(seen_at(s1, c, cur.0 - 1, cur.1));
                    assert(seen_at(s2, c, cur.0 - 1, cur.1));
                    assert(seen_at(s3, c, cur.0 - 1, cur.1));
                }
            }
            assert(walkable(grid, (cur.0 + 1, cur.1)) ==> seen_at(s4, c, cur.0 + 1, cur.1)) by {
                if walkable(grid, (cur.0 + 1, cur.1)) {
                    assert(seen_at(s2, c, cur.0 + 1, cur.1));
                    assert(seen_at(s3, c, cur.0 + 1, cur.1));
                }
            }
            assert(walkable(grid, (cur.0, cur.1 - 1)) ==> seen_at(s4, c, cur.0, cur.1 - 1)) by {
                if walkable(grid, (cur.0, cur.1 - 1)) {
                    assert(seen_at(s3, c, cur.0, cur.1 - 1));
                }
            }
            assert(settled(grid, s4, c, cur.0, cur.1));
        }
    }
    proof {
        let member = |cell: (int, int)| 0 <= cell.0 < rows && 0 <= cell.1 < c && seen_at(seen@, c, cell.0, cell.1);
        assert forall|a: (int, int), b: (int, int)|
            #![trigger member(a), walkable(grid, b)]
            member(a) && in_grid(grid, a) && adjacent(a, b) && walkable(grid, b) implies member(b) by {
            assert(settled(grid, seen@, c, a.0, a.1));
            assert(grid[b.0].len() == c);
        }
        assert forall|cell: (int, int)| #[trigger] reachable(grid, start, cell) implies member(cell) by {
            let path = choose|path: Seq<(int, int)>| is_walk(grid, path) && path[0] == start && #[trigger] path.last() == cell;
            lemma_closed_holds_walk(grid, member, path, path.len() - 1);
        }
    }
    let found = border_seen(&seen, rows, columns);
    proof {
        if found {
            let (r, col) = choose|r: int, col: int|
                0 <= r < rows && 0 <= col < columns && #[trigger] seen_at(seen@, c, r, col) && (r == 0 || r == rows
                    - 1 || col == 0 || col == columns - 1);
            assert(grid[r].len() == c);
            assert(reachable(grid, start, (r, col)));
            assert(on_border(grid, (r, col)));
        } else {
            assert forall|cell: (int, int)| #[trigger] reachable(grid, start, cell) implies !on_border(grid, cell) by {
                assert(seen_at(seen@, c, cell.0, cell.1));
                assert(grid[cell.0].len() == c);
            }
        }
    }
    found
}

/// Whether some flagged cell of a `rows` by `columns` table lies on its outer ring.
fn border_seen(seen: &Vec<bool>, rows: usize, columns: usize) -> (found: bool)
    requires
        seen@.len() == rows * columns,
    ensures
        found == exists|r: int, col: int|
            0 <= r < rows && 0 <= col < columns && #[trigger] seen_at(seen@, columns as int, r, col) && (r == 0 || r
                == rows - 1 || col == 0 || col == columns - 1),
{
    let length = seen.len();
    let mut r: usize = 0;
    while r < rows
        invariant
            seen@.len() == rows * columns,
            length == rows * columns,
            r <= rows,
            forall|r2: int, col: int|
                0 <= r2 < r && 0 <= col < columns && #[trigger] seen_at(seen@, columns as int, r2, col) ==> !(r2 == 0
                    || r2 == rows - 1 || col == 0 || col == columns - 1),
        decreases rows - r,
    {
        let mut col: usize = 0;
        while col < columns
            invariant
                seen@.len() == rows * columns,
                length == rows * columns,
                r < rows,
                col <= columns,
                forall|r2: int, col2: int|
                    ((0 <= r2 < r && 0 <= col2 < columns) || (r2 == r && 0 <= col2 < col)) && #[trigger] seen_at(
                        seen@,
                        columns as int,
                        r2,
                        col2,
                    ) ==> !(r2 == 0 || r2 == rows - 1 || col2 == 0 || col2 == columns - 1),
            decreases columns - col,
        {
            proof {
                assert(r * columns + col < rows * columns) by (nonlinear_arith)
                    requires
                        r < rows,
                        col < columns,
                ;
            }
            if seen[r * columns + col] && (r == 0 || r == rows - 1 || col == 0 || col == columns - 1) {
                proof {
                    assert(seen_at(seen@, columns as int, r as int, col as int));
                }
                return true;
            }
            col = col + 1;
        }
        r = r + 1;
    }
    false
}


/// The level that `source` describes, or why it is rejected: the first
/// problem met reading the lines in order, then a missing grid or start, then
/// a start from which the player can walk off the grid.
pub open spec fn spec_parse(source: Seq<u8>) -> Result<LevelModel, LevelError> {
    let rows = lines(source);
    match read_rows(rows, 0, Findings { start: None, goal: None }) {
        Err(error) => Err(error),
        Ok(found) => if rows.len() == 0 {
            Err(LevelError::Empty)
        } else if found.start is None {
            Err(LevelError::MissingStart)
        } else if escapes(tiles_of(rows), found.start.unwrap()) {
            Err(LevelError::Open)
        } else {
            Ok(LevelModel { tiles: tiles_of(rows), start: found.start.unwrap(), goal: found.goal })
        },
    }
}

/// The findings that the parser's start and goal stand for.
pub open spec fn findings_of(start: Option<PlayerStart>, goal: Option<Goal>) -> Findings {
    Findings {
        start: match start {
            Some(cell) => Some((cell.row as int, cell.column as int)),
            None => None,
        },
        goal: match goal {
            Some(cell) => Some((cell.row as int, cell.column as int)),
            None => None,
        },
    }
}

/// The first line feed at or after `start` is at `end`.
proof fn lemma_newline_at(s: Seq<u8>, start: int, end: int)
    requires
        0 <= start <= end <= s.len(),
        forall|k: int| start <= k < end ==> s[k] != 10,
        end == s.len() || s[end] == 10,
    ensures
        newline_from(s, start) == end,
    decreases end - start,
{
    if start < end {
        lemma_newline_at(s, start + 1, end);
    }
}

impl Level {
    /// Reads a level from its text. See [`spec_parse`] for what is accepted.
    pub fn parse(source: &str) -> (result: Result<Level, LevelError>)
        ensures
            match result {
                Ok(level) => spec_parse(source.spec_bytes()) == Ok::<LevelModel, LevelError>(level.model()),
                Err(error) => spec_parse(source.spec_bytes()) == Err::<LevelModel, LevelError>(error),
            },
    {
        let bytes = source.as_bytes();
        let ghost s = bytes@;
        let ghost all = lines(s);
        let ghost init = Findings { start: None, goal: None };
        let length = bytes.len();
        let mut tiles: Vec<Vec<u8>> = Vec::new();
        let mut player_start: Option<PlayerStart> = None;
        let mut goal: Option<Goal> = None;
        let mut expected_width: usize = 0;
        let mut pos: usize = 0;
        let mut row_index: usize = 0;
        let ghost mut done: Seq<Seq<u8>> = seq![];
        while pos < length
            invariant
                s == bytes@,
                s == source.spec_bytes(),
                length == s.len(),
                all == lines(s),
                init == (Findings { start: None, goal: None }),
                pos <= length,
                all == done + lines_from(s, pos as int),
                done.len() == row_index,
                grid_of(tiles@) == tiles_of(done),
                tiles@.len() == row_index,
                read_rows(all, 0, init) == read_rows(all, row_index as int, findings_of(player_start, goal)),
                row_index > 0 ==> expected_width == done[0].len() && expected_width > 0,
                forall|r: int| 0 <= r < row_index ==> #[trigger] done[r].len() == expected_width,
                row_index * expected_width <= pos,
                row_index <= pos,
                player_start matches Some(cell) ==> cell.row < row_index && cell.column < expected_width
                    && done[cell.row as int][cell.column as int] == 80,
            decreases length - pos,
        {
            let mut end = pos;
            while end < length && bytes[end] != 10
                invariant
                    s == bytes@,
                    length == s.len(),
                    pos <= end <= length,
                    forall|k: int| pos <= k < end ==> s[k] != 10,
                decreases length - end,
            {
                end = end + 1;
            }
            let line_end = if end < length && end > pos && bytes[end - 1] == 13 { end - 1 } else { end };
            let ghost line = s.subrange(pos as int, line_end as int);
            proof {
                lemma_newline_at(s, pos as int, end as int);
                assert(lines_from(s, pos as int) == seq![line] + lines_from(s, end + 1));
                assert(all[row_index as int] == line) by {
                    assert(all == (done + seq![line]) + lines_from(s, end + 1));
                }
                assert(row_index < all.len());
            }
            if line_end == pos {
                return Err(LevelError::EmptyRow { row: row_index });
            }
            let ghost row_start = findings_of(player_start, goal);
            let mut row: Vec<u8> = Vec::new();
            let mut column: usize = 0;
            let width = line_end - pos;
            while column < width
                invariant
                    s == bytes@,
                    length == s.len(),
                    pos + width == line_end,
                    line_end <= length,
                    line == s.subrange(pos as int, line_end as int),
                    column <= width,
                    row@ == line.take(column as int).map_values(|character: u8| tile_of(character)),
                    read_row(line, row_index as int, 0, row_start) == read_row(
                        line,
                        row_index as int,
                        column as int,
                        findings_of(player_start, goal),
                    ),
                    row_index < all.len(),
                    all[row_index as int] == line,
                    all == lines(s),
                    s == source.spec_bytes(),
                    init == (Findings { start: None, goal: None }),
                    read_rows(all, 0, init) == read_rows(all, row_index as int, row_start),
                    width > 0,
                    forall|r: int| 0 <= r < row_index ==> #[trigger] done[r].len() == expected_width,
                    done.len() == row_index,
                    player_start matches Some(cell) ==> (cell.row < row_index && cell.column < expected_width
                        && done[cell.row as int][cell.column as int] == 80) || (cell.row == row_index && cell.column
                        < column && line[cell.column as int] == 80),
                decreases width - column,
            {
                let character = bytes[pos + column];
                proof {
                    assert(line[column as int] == character);
                    assert(line.take(column + 1) =~= line.take(column as int).push(character));
                }
                if 52 <= character && character <= 57 {
                    return Err(LevelError::UntexturedWall { wall_type: character - 48, row: row_index, column });
                } else if !(character == 46 || character == 80 || character == 71 || (49 <= character
                    && character <= 51)) {
                    return Err(LevelError::InvalidCharacter { character, row: row_index, column });
                } else if character == 80 {
                    if player_start.is_some() {
                        return Err(LevelError::DuplicateStart);
                    }
                    player_start = Some(PlayerStart { row: row_index, column });
                    row.push(EMPTY_TILE);
                } else if character == 71 {
                    if goal.is_some() {
                        return Err(LevelError::DuplicateGoal);
                    }
                    goal = Some(Goal { row: row_index, column });
                    row.push(EMPTY_TILE);
                } else if character == 46 {
                    row.push(EMPTY_TILE);
                } else {
                    row.push(character - 48);
                }
                column = column + 1;
            }
            proof {
                assert(line.take(width as int) =~= line);
            }
            if row_index > 0 && row.len() != expected_width {
                return Err(LevelError::NotRectangular);
            }
            if row_index == 0 {
                expected_width = row.len();
            }
            proof {
                assert(row_index * expected_width + expected_width <= pos + width) by (nonlinear_arith)
                    requires
                        row_index * expected_width <= pos,
                        width == expected_width,
                ;
                assert((row_index + 1) * expected_width == row_index * expected_width + expected_width) by (nonlinear_arith);
            }
            let ghost prev_tiles = tiles@;
            let ghost prev_done = done;
            proof {
                done = done.push(line);
                assert(all == done + lines_from(s, end + 1));
            }
            tiles.push(row);
            proof {
                assert(grid_of(tiles@) =~= tiles_of(done)) by {
                    assert forall|r: int| 0 <= r < tiles@.len() implies grid_of(tiles@)[r] == tiles_of(done)[r] by {
                        if r < row_index {
                            assert(tiles@[r] == prev_tiles[r]);
                            assert(done[r] == prev_done[r]);
                            assert(grid_of(prev_tiles)[r] == tiles_of(prev_done)[r]);
                        }
                    }
                }
            }
            pos = if end < length { end + 1 } else { length };
            row_index = row_index + 1;
        }
        proof {
            assert(lines_from(s, pos as int) =~= Seq::<Seq<u8>>::empty());
            assert(all =~= done);
        }
        if row_index == 0 {
            return Err(LevelError::Empty);
        }
        let start = match player_start {
            Some(cell) => cell,
            None => return Err(LevelError::MissingStart),
        };
        proof {
            assert forall|r: int| 0 <= r < grid_of(tiles@).len() implies #[trigger] grid_of(tiles@)[r].len()
                == expected_width by {
                assert(done[r].len() == expected_width);
            }
            assert(row_index * expected_width <= usize::MAX);
            assert(grid_of(tiles@)[start.row as int][start.column as int] == tile_of(80));
        }
        if can_escape(&tiles, expected_width, start.row, start.column) {
            return Err(LevelError::Open);
        }
        Ok(Level { tiles, player_start: start, goal })
    }
}


/// A character of the level format.
pub open spec fn valid_character(character: u8) -> bool {
    character == 46 || character == 80 || character == 71 || (49 <= character <= 51)
}

/// What a successful read of row `row` from column `column` on has found.
proof fn lemma_read_row_ok(line: Seq<u8>, row: int, column: int, found: Findings)
    requires
        0 <= column,
        read_row(line, row, column, found) is Ok,
    ensures
        ({
            let after = read_row(line, row, column, found)->Ok_0;
            &&& forall|k: int| column <= k < line.len() ==> valid_character(#[trigger] line[k])
            &&& forall|k: int|
                column <= k < line.len() && #[trigger] line[k] == 80 ==> found.start is None && after.start == Some(
                    (row, k),
                )
            &&& forall|k: int|
                column <= k < line.len() && #[trigger] line[k] == 71 ==> found.goal is None && after.goal == Some(
                    (row, k),
                )
            &&& after.start == found.start || (found.start is None && exists|k: int|
                column <= k < line.len() && #[trigger] line[k] == 80 && after.start == Some((row, k)))
            &&& after.goal == found.goal || (found.goal is None && exists|k: int|
                column <= k < line.len() && #[trigger] line[k] == 71 && after.goal == Some((row, k)))
        }),
    decreases line.len() - column,
{
    if column < line.len() {
        let character = line[column];
        if character == 80 {
            lemma_read_row_ok(line, row, column + 1, Findings { start: Some((row, column)), ..found });
        } else if character == 71 {
            lemma_read_row_ok(line, row, column + 1, Findings { goal: Some((row, column)), ..found });
        } else {
            lemma_read_row_ok(line, row, column + 1, found);
        }
    }
}

/// Reading a row from `column` on succeeds when its characters are all part of
/// the format and it adds no second `P` or `G`.
proof fn lemma_read_row_complete(line: Seq<u8>, row: int, column: int, found: Findings)
    requires
        0 <= column,
        forall|k: int| column <= k < line.len() ==> valid_character(#[trigger] line[k]),
        forall|k1: int, k2: int|
            column <= k1 < line.len() && column <= k2 < line.len() && #[trigger] line[k1] == 80 && #[trigger] line[k2]
                == 80 ==> k1 == k2,
        forall|k1: int, k2: int|
            column <= k1 < line.len() && column <= k2 < line.len() && #[trigger] line[k1] == 71 && #[trigger] line[k2]
                == 71 ==> k1 == k2,
        found.start is Some ==> forall|k: int| column <= k < line.len() ==> #[trigger] line[k] != 80,
        found.goal is Some ==> forall|k: int| column <= k < line.len() ==> #[trigger] line[k] != 71,
    ensures
        read_row(line, row, column, found) is Ok,
    decreases line.len() - column,
{
    if column < line.len() {
        let character = line[column];
        assert(valid_character(line[column]));
        if character == 80 {
            assert forall|k: int| column + 1 <= k < line.len() implies #[trigger] line[k] != 80 by {
                if line[k] == 80 {
                    assert(line[column] == 80);
                }
            }
            lemma_read_row_complete(line, row, column + 1, Findings { start: Some((row, column)), ..found });
        } else if character == 71 {
            assert forall|k: int| column + 1 <= k < line.len() implies #[trigger] line[k] != 71 by {
                if line[k] == 71 {
                    assert(line[column] == 71);
                }
            }
            lemma_read_row_complete(line, row, column + 1, Findings { goal: Some((row, column)), ..found });
        } else {
            lemma_read_row_complete(line, row, column + 1, found);
        }
    }
}

/// Reading the rows from `row` on succeeds when they are non-empty, as long as
/// the first row, made of characters of the format, and add no second `P` or `G`.
proof fn lemma_read_rows_complete(lines: Seq<Seq<u8>>, row: int, found: Findings)
    requires
        0 <= row,
        forall|r: int| row <= r < lines.len() ==> #[trigger] lines[r].len() > 0,
        forall|r: int| row <= r < lines.len() ==> #[trigger] lines[r].len() == lines[0].len(),
        forall|r: int, k: int| row <= r < lines.len() && 0 <= k < lines[r].len() ==> valid_character(#[trigger] lines[r][k]),
        forall|r1: int, k1: int, r2: int, k2: int|
            row <= r1 < lines.len() && 0 <= k1 < lines[r1].len() && row <= r2 < lines.len() && 0 <= k2 < lines[r2].len()
                && #[trigger] lines[r1][k1] == 80 && #[trigger] lines[r2][k2] == 80 ==> r1 == r2 && k1 == k2,
        forall|r1: int, k1: int, r2: int, k2: int|
            row <= r1 < lines.len() && 0 <= k1 < lines[r1].len() && row <= r2 < lines.len() && 0 <= k2 < lines[r2].len()
                && #[trigger] lines[r1][k1] == 71 && #[trigger] lines[r2][k2] == 71 ==> r1 == r2 && k1 == k2,
        found.start is Some ==> forall|r: int, k: int|
            row <= r < lines.len() && 0 <= k < lines[r].len() ==> #[trigger] lines[r][k] != 80,
        found.goal is Some ==> forall|r: int, k: int|
            row <= r < lines.len() && 0 <= k < lines[r].len() ==> #[trigger] lines[r][k] != 71,
    ensures
        read_rows(lines, row, found) is Ok,
    decreases lines.len() - row,
{
    if row < lines.len() {
        let line = lines[row];
        assert forall|k1: int, k2: int|
            0 <= k1 < line.len() && 0 <= k2 < line.len() && #[trigger] line[k1] == 80 && #[trigger] line[k2] == 80
            implies k1 == k2 by {
            assert(lines[row][k1] == 80 && lines[row][k2] == 80);
        }
        assert forall|k1: int, k2: int|
            0 <= k1 < line.len() && 0 <= k2 < line.len() && #[trigger] line[k1] == 71 && #[trigger] line[k2] == 71
            implies k1 == k2 by {
            assert(lines[row][k1] == 71 && lines[row][k2] == 71);
        }
        assert forall|k: int| 0 <= k < line.len() implies valid_character(#[trigger] line[k]) by {
            assert(valid_character(lines[row][k]));
        }
        if found.start is Some {
            assert forall|k: int| 0 <= k < line.len() implies #[trigger] line[k] != 80 by {
                assert(lines[row][k] != 80);
            }
        }
        if found.goal is Some {
            assert forall|k: int| 0 <= k < line.len() implies #[trigger] line[k] != 71 by {
                assert(lines[row][k] != 71);
            }
        }
        lemma_read_row_complete(line, row, 0, found);
        lemma_read_row_ok(line, row, 0, found);
        let middle = read_row(line, row, 0, found)->Ok_0;
        if middle.start is Some {
            assert forall|r: int, k: int| row + 1 <= r < lines.len() && 0 <= k < lines[r].len() implies #[trigger] lines[r][k]
                != 80 by {
                if lines[r][k] == 80 {
                    if found.start is None {
                        let k0 = choose|k0: int| 0 <= k0 < line.len() && #[trigger] line[k0] == 80 && middle.start == Some((row, k0));
                        assert(lines[row][k0] == 80);
                    }
                }
            }
        }
        if middle.goal is Some {
            assert forall|r: int, k: int| row + 1 <= r < lines.len() && 0 <= k < lines[r].len() implies #[trigger] lines[r][k]
                != 71 by {
                if lines[r][k] == 71 {
                    if found.goal is None {
                        let k0 = choose|k0: int| 0 <= k0 < line.len() && #[trigger] line[k0] == 71 && middle.goal == Some((row, k0));
                        assert(lines[row][k0] == 71);
                    }
                }
            }
        }
        lemma_read_rows_complete(lines, row + 1, middle);
    }
}

/// What a successful read of the rows from `row` on has found.
proof fn lemma_read_rows_ok(lines: Seq<Seq<u8>>, row: int, found: Findings)
    requires
        0 <= row,
        read_rows(lines, row, found) is Ok,
    ensures
        ({
            let after = read_rows(lines, row, found)->Ok_0;
            &&& forall|r: int| row <= r < lines.len() ==> #[trigger] lines[r].len() > 0
            &&& forall|r: int| row <= r < lines.len() && r > 0 ==> #[trigger] lines[r].len() == lines[0].len()
            &&& forall|r: int, k: int| row <= r < lines.len() && 0 <= k < lines[r].len() ==> valid_character(#[trigger] lines[r][k])
            &&& forall|r: int, k: int|
                row <= r < lines.len() && 0 <= k < lines[r].len() && #[trigger] lines[r][k] == 80 ==> found.start is None
                    && after.start == Some((r, k))
            &&& forall|r: int, k: int|
                row <= r < lines.len() && 0 <= k < lines[r].len() && #[trigger] lines[r][k] == 71 ==> found.goal is None
                    && after.goal == Some((r, k))
            &&& after.start == found.start || (found.start is None && exists|r: int, k: int|
                row <= r < lines.len() && 0 <= k < lines[r].len() && #[trigger] lines[r][k] == 80 && after.start
                    == Some((r, k)))
            &&& after.goal == found.goal || (found.goal is None && exists|r: int, k: int|
                row <= r < lines.len() && 0 <= k < lines[r].len() && #[trigger] lines[r][k] == 71 && after.goal
                    == Some((r, k)))
        }),
    decreases lines.len() - row,
{
    if row < lines.len() {
        let middle = read_row(lines[row], row, 0, found)->Ok_0;
        lemma_read_row_ok(lines[row], row, 0, found);
        lemma_read_rows_ok(lines, row + 1, middle);
        let after = read_rows(lines, row, found)->Ok_0;
        assert(after == read_rows(lines, row + 1, middle)->Ok_0);
        assert forall|r: int, k: int|
            row <= r < lines.len() && 0 <= k < lines[r].len() && #[trigger] lines[r][k] == 80 implies found.start is None
                && after.start == Some((r, k)) by {
            if r == row {
                assert(lines[row][k] == 80);
                if middle.start != found.start {
                    let k2 = choose|k2: int| 0 <= k2 < lines[row].len() && #[trigger] lines[row][k2] == 80 && middle.start == Some((row, k2));
                    assert(lines[row][k2] == 80);
                }
            }
        }
        assert forall|r: int, k: int|
            row <= r < lines.len() && 0 <= k < lines[r].len() && #[trigger] lines[r][k] == 71 implies found.goal is None
                && after.goal == Some((r, k)) by {
            if r == row {
                assert(lines[row][k] == 71);
                if middle.goal != found.goal {
                    let k2 = choose|k2: int| 0 <= k2 < lines[row].len() && #[trigger] lines[row][k2] == 71 && middle.goal == Some((row, k2));
                    assert(lines[row][k2] == 71);
                }
            }
        }
        if after.start != found.start {
            if middle.start != found.start {
                let k = choose|k: int| 0 <= k < lines[row].len() && #[trigger] lines[row][k] == 80 && middle.start == Some((row, k));
                assert(lines[row][k] == 80);
            }
        }
        if after.goal != found.goal {
            if middle.goal != found.goal {
                let k = choose|k: int| 0 <= k < lines[row].len() && #[trigger] lines[row][k] == 71 && middle.goal == Some((row, k));
                assert(lines[row][k] == 71);
            }
        }
    }
}

/// Every level that the parser accepts is a non-empty rectangular grid of floor
/// and textured walls, with exactly one start, on floor, where the `P` of the
/// text is, at most one goal, where its `G` is, and from whose start the player
/// cannot walk off the grid.
pub proof fn lemma_accepted_level(source: Seq<u8>)
    requires
        spec_parse(source) is Ok,
    ensures
        ({
            let level = spec_parse(source)->Ok_0;
            let text = lines(source);
            &&& level.tiles == tiles_of(text)
            &&& level.tiles.len() > 0 && level.tiles[0].len() > 0
            &&& is_rectangular(level.tiles, level.tiles[0].len() as int)
            &&& forall|r: int, c: int|
                0 <= r < level.tiles.len() && 0 <= c < level.tiles[r].len() ==> #[trigger] level.tiles[r][c]
                    <= WALL_TYPE_COUNT
            &&& walkable(level.tiles, level.start)
            &&& forall|r: int, c: int|
                0 <= r < text.len() && 0 <= c < text[r].len() ==> (#[trigger] text[r][c] == 80 <==> (r, c) == level.start)
            &&& forall|r: int, c: int|
                0 <= r < text.len() && 0 <= c < text[r].len() ==> (#[trigger] text[r][c] == 71 <==> level.goal == Some((r, c)))
            &&& level.goal matches Some(goal) ==> walkable(level.tiles, goal)
            &&& !escapes(level.tiles, level.start)
        }),
{
    let text = lines(source);
    let init = Findings { start: None, goal: None };
    lemma_read_rows_ok(text, 0, init);
    let found = read_rows(text, 0, init)->Ok_0;
    let level = spec_parse(source)->Ok_0;
    let tiles = tiles_of(text);
    assert(level.tiles == tiles);
    let (sr, sc) = found.start.unwrap();
    assert(0 <= sr < text.len() && 0 <= sc < text[sr].len() && text[sr][sc] == 80);
    assert(tiles[sr][sc] == tile_of(80));
    assert forall|r: int| 0 <= r < tiles.len() implies #[trigger] tiles[r].len() == tiles[0].len() by {
        assert(text[r].len() > 0);
    }
    assert forall|r: int, c: int|
        0 <= r < tiles.len() && 0 <= c < tiles[r].len() implies #[trigger] tiles[r][c] <= WALL_TYPE_COUNT by {
        assert(valid_character(text[r][c]));
    }
    assert(text[0].len() > 0);
    if let Some((gr, gc)) = level.goal {
        assert(0 <= gr < text.len() && 0 <= gc < text[gr].len() && text[gr][gc] == 71);
        assert(tiles[gr][gc] == tile_of(71));
    }
}

/// The lines of a level text that the format accepts, with its start and goal
/// cells: a non-empty grid of equally long non-empty rows made only of `.`,
/// `P`, `G` and `1` to `3`, the one `P` at `start`, the `G` (if any) at `goal`,
/// and no walk from the start to the edge of the grid.
pub open spec fn is_level_text(rows: Seq<Seq<u8>>, start: (int, int), goal: Option<(int, int)>) -> bool {
    &&& rows.len() > 0
    &&& rows[0].len() > 0
    &&& forall|r: int| 0 <= r < rows.len() ==> #[trigger] rows[r].len() == rows[0].len()
    &&& forall|r: int, c: int| 0 <= r < rows.len() && 0 <= c < rows[r].len() ==> valid_character(#[trigger] rows[r][c])
    &&& 0 <= start.0 < rows.len() && 0 <= start.1 < rows[start.0].len() && rows[start.0][start.1] == 80
    &&& forall|r: int, c: int| 0 <= r < rows.len() && 0 <= c < rows[r].len() && #[trigger] rows[r][c] == 80 ==> (r, c) == start
    &&& goal matches Some(cell) ==> 0 <= cell.0 < rows.len() && 0 <= cell.1 < rows[cell.0].len()
    &&& forall|r: int, c: int|
        0 <= r < rows.len() && 0 <= c < rows[r].len() ==> (#[trigger] rows[r][c] == 71 <==> goal == Some((r, c)))
    &&& !escapes(tiles_of(rows), start)
}

/// Every text the format accepts is read, whatever its size: the level has the
/// tiles of its lines, its `P` as the start and its `G`, if any, as the goal.
pub proof fn lemma_parse_complete(source: Seq<u8>, start: (int, int), goal: Option<(int, int)>)
    requires
        is_level_text(lines(source), start, goal),
    ensures
        spec_parse(source) == Ok::<LevelModel, LevelError>(LevelModel { tiles: tiles_of(lines(source)), start, goal }),
{
    let rows = lines(source);
    let init = Findings { start: None, goal: None };
    assert forall|r1: int, k1: int, r2: int, k2: int|
        0 <= r1 < rows.len() && 0 <= k1 < rows[r1].len() && 0 <= r2 < rows.len() && 0 <= k2 < rows[r2].len()
            && #[trigger] rows[r1][k1] == 71 && #[trigger] rows[r2][k2] == 71 implies r1 == r2 && k1 == k2 by {
        assert(goal == Some((r1, k1)));
        assert(goal == Some((r2, k2)));
    }
    lemma_read_rows_complete(rows, 0, init);
    lemma_read_rows_ok(rows, 0, init);
    let found = read_rows(rows, 0, init)->Ok_0;
    assert(rows[start.0][start.1] == 80);
    assert(found.start == Some(start));
    match goal {
        Some(cell) => {
            assert(rows[cell.0][cell.1] == 71);
            assert(found.goal == Some(cell));
        },
        None => {
            if found.goal is Some {
                let (r, k) = choose|r: int, k: int|
                    0 <= r < rows.len() && 0 <= k < rows[r].len() && #[trigger] rows[r][k] == 71 && found.goal == Some((r, k));
                assert(rows[r][k] == 71);
            }
        },
    }
}


impl Level {
    /// The tile at column `x`, row `y`, or `None` outside the grid.
    pub fn tile_at(&self, x: i32, y: i32) -> (tile: Option<u8>)
        ensures
            tile == if in_grid(self.model().tiles, (y as int, x as int)) {
                Some(self.model().tiles[y as int][x as int])
            } else {
                None::<u8>
            },
    {
        if x < 0 || y < 0 {
            return None;
        }
        let (column, row) = (x as usize, y as usize);
        if row >= self.tiles.len() {
            return None;
        }
        if column >= self.tiles[row].len() {
            return None;
        }
        Some(self.tiles[row][column])
    }
}

} // verus!
