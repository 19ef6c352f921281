//! The grid, the four directions, and the terminal-state detector.
use vstd::prelude::*;

verus! {

/// A 4×4 grid of tiles, indexed `[row][column]`; `0` is an empty cell.
pub type Grid = [[u64; 4]; 4];

/// The direction in which the tiles travel during a move.
#[derive(Clone, Copy, Debug, PartialEq, Eq, Structural)]
pub enum Direction {
    Down,
    Left,
    Right,
    Up,
}

/// The value of cell `(x, y)` (row `x`, column `y`).
pub open spec fn cell(b: Grid, x: int, y: int) -> int {
    b[x][y] as int
}

pub open spec fn in_grid(x: int, y: int) -> bool {
    0 <= x < 4 && 0 <= y < 4
}

/// `v` is 1, 2, 4, 8, ...
pub open spec fn is_power_of_two(v: int) -> bool
    decreases v,
{
    if v <= 1 {
        v == 1
    } else {
        v % 2 == 0 && is_power_of_two(v / 2)
    }
}

/// A cell value: empty, or a power of two of at least 2.
pub open spec fn is_tile(v: int) -> bool {
    v == 0 || (v >= 2 && is_power_of_two(v))
}

/// Every cell of the grid holds a valid value.
pub open spec fn valid_grid(b: Grid) -> bool {
    forall|x: int, y: int| in_grid(x, y) ==> is_tile(cell(b, x, y))
}

/// Sum of the values in row `x`.
pub open spec fn row_total(b: Grid, x: int) -> int {
    cell(b, x, 0) + cell(b, x, 1) + cell(b, x, 2) + cell(b, x, 3)
}

/// Sum of all values on the grid.
pub open spec fn grid_total(b: Grid) -> int {
    row_total(b, 0) + row_total(b, 1) + row_total(b, 2) + row_total(b, 3)
}

pub open spec fn occupied(b: Grid, x: int, y: int) -> int {
    if cell(b, x, y) != 0 {
        1
    } else {
        0
    }
}

pub open spec fn row_count(b: Grid, x: int) -> int {
    occupied(b, x, 0) + occupied(b, x, 1) + occupied(b, x, 2) + occupied(b, x, 3)
}

/// Number of non-empty cells.
pub open spec fn tile_count(b: Grid) -> int {
    row_count(b, 0) + row_count(b, 1) + row_count(b, 2) + row_count(b, 3)
}

/// Two grids that hold the same value in every cell.
pub open spec fn same_cells(a: Grid, b: Grid) -> bool {
    forall|x: int, y: int| in_grid(x, y) ==> cell(a, x, y) == cell(b, x, y)
}

/// Two cells that share an edge.
pub open spec fn adjacent(x1: int, y1: int, x2: int, y2: int) -> bool {
    (x1 == x2 && (y1 - y2 == 1 || y2 - y1 == 1)) || (y1 == y2 && (x1 - x2 == 1 || x2 - x1 == 1))
}

/// Some move can still change the grid: a cell is empty, or two adjacent
/// cells hold equal values.
pub open spec fn has_move(b: Grid) -> bool {
    (exists|x: int, y: int| in_grid(x, y) && cell(b, x, y) == 0) || (exists|
        x1: int,
        y1: int,
        x2: int,
        y2: int,
    |
        in_grid(x1, y1) && in_grid(x2, y2) && adjacent(x1, y1, x2, y2) && cell(b, x1, y1) == cell(
            b,
            x2,
            y2,
        ))
}

/// Whether any move is still possible on `board`.
pub fn check_moves(board: &Grid) -> (r: bool)
    ensures
        r == has_move(*board),
{
    let mut x: usize = 0;
    while x < 4
        invariant
            0 <= x <= 4,
            forall|i: int, j: int|
                0 <= i < x && 0 <= j < 4 ==> cell(*board, i, j) != 0 && (forall|k: int, l: int|
                    in_grid(k, l) && adjacent(i, j, k, l) ==> cell(*board, i, j) != cell(
                        *board,
                        k,
                        l,
                    )),
        decreases 4 - x,
    {
        let mut y: usize = 0;
        while y < 4
            invariant
                0 <= x < 4,
                0 <= y <= 4,
                forall|i: int, j: int|
                    ((0 <= i < x && 0 <= j < 4) || (i == x && 0 <= j < y)) ==> cell(*board, i, j)
                        != 0 && (forall|k: int, l: int|
                        in_grid(k, l) && adjacent(i, j, k, l) ==> cell(*board, i, j) != cell(
                            *board,
                            k,
                            l,
                        )),
            decreases 4 - y,
        {
            let v = board[x][y];
            if v == 0 {
                assert(in_grid(x as int, y as int) && cell(*board, x as int, y as int) == 0);
                return true;
            } else if x > 0 && board[x - 1][y] == v {
                assert(adjacent(x as int, y as int, x - 1, y as int));
                return true;
            } else if x < 3 && board[x + 1][y] == v {
                assert(adjacent(x as int, y as int, x + 1, y as int));
                return true;
            } else if y > 0 && board[x][y - 1] == v {
                assert(adjacent(x as int, y as int, x as int, y - 1));
                return true;
            } else if y < 3 && board[x][y + 1] == v {
                assert(adjacent(x as int, y as int, x as int, y + 1));
                return true;
            }
            y = y + 1;
        }
        x = x + 1;
    }
    false
}

} // verus!
