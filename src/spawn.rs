//! The tile spawner: after a move, one empty cell receives a 2 or a 4.
use vstd::prelude::*;

use crate::grid::{cell, in_grid, is_power_of_two, is_tile, valid_grid, Grid};

verus! {

#[verifier::external_type_specification]
#[verifier::external_body]
pub struct ExEntropyError(getrandom::Error);

/// Why no tile could be placed.
#[derive(Debug)]
pub enum SpawnError {
    /// The system's entropy source failed.
    Entropy(getrandom::Error),
}

/// Number of empty cells among the first `n` cells in row-major order.
pub open spec fn empties_before(b: Grid, n: int) -> int
    decreases n,
{
    if n <= 0 {
        0
    } else {
        empties_before(b, n - 1) + if cell(b, (n - 1) / 4, (n - 1) % 4) == 0 {
            1int
        } else {
            0
        }
    }
}

/// Number of empty cells on the grid.
pub open spec fn empty_count(b: Grid) -> int {
    empties_before(b, 16)
}

/// The tile that a random byte places: 2 for an even byte, 4 for an odd one.
pub open spec fn spawn_value(r: u8) -> int {
    if r % 2 == 0 {
        2
    } else {
        4
    }
}

/// `after` is `before` with value `v` written at `(x, y)`.
pub open spec fn filled(before: Grid, after: Grid, x: int, y: int, v: int) -> bool {
    &&& in_grid(x, y)
    &&& cell(after, x, y) == v
    &&& forall|i: int, j: int|
        in_grid(i, j) && (i != x || j != y) ==> cell(after, i, j) == cell(before, i, j)
}

/// `after` is `before` with one of its empty cells holding a 2 or a 4.
pub open spec fn spawned(before: Grid, after: Grid) -> bool {
    exists|x: int, y: int|
        in_grid(x, y) && cell(before, x, y) == 0 && (filled(before, after, x, y, 2) || filled(
            before,
            after,
            x,
            y,
            4,
        ))
}

/// Relies on getrandom::getrandom: fills a one-byte buffer from the system's
/// entropy source, or returns the error it met.
#[verifier::external_body]
fn random_byte() -> (r: Result<u8, getrandom::Error>) {
    let mut buf = [0u8];
    match getrandom::getrandom(&mut buf) {
        Ok(()) => Ok(buf[0]),
        Err(e) => Err(e),
    }
}

/// Number of empty cells on `board`.
pub fn count_empty(board: &Grid) -> (n: usize)
    ensures
        n as int == empty_count(*board),
        n <= 16,
{
    let mut n: usize = 0;
    let mut i: usize = 0;
    while i < 16
        invariant
            0 <= i <= 16,
            n as int == empties_before(*board, i as int),
            n <= i,
        decreases 16 - i,
    {
        if board[i / 4][i % 4] == 0 {
            n = n + 1;
        }
        i = i + 1;
    }
    n
}

/// Places the tile chosen by the byte `random`: its parity gives the value
/// (2 or 4), and the byte modulo the number of empty cells gives which empty
/// cell, counted in row-major order from the top-left corner. Returns the
/// cell that was filled.
pub fn place_tile(board: &mut Grid, random: u8) -> (r: (usize, usize))
    requires
        empty_count(*old(board)) > 0,
    ensures
        r.0 < 4,
        r.1 < 4,
        cell(*old(board), r.0 as int, r.1 as int) == 0,
        empties_before(*old(board), 4 * r.0 + r.1) == random as int % empty_count(*old(board)),
        filled(*old(board), *final(board), r.0 as int, r.1 as int, spawn_value(random)),
{
    let n = count_empty(board);
    let k: usize = (random as usize) % n;
    let v: u64 = if random % 2 == 0 {
        2
    } else {
        4
    };
    let mut c: usize = 0;
    let mut i: usize = 0;
    while i < 16
        invariant
            0 <= i <= 16,
            c as int == empties_before(*board, i as int),
            c <= k,
            k < n,
            k as int == random as int % n as int,
            v as int == spawn_value(random),
            n as int == empty_count(*board),
            *board == *old(board),
        decreases 16 - i,
    {
        let x = i / 4;
        let y = i % 4;
        assert(4 * x + y == i);
        if board[x][y] == 0 {
            if c == k {
                let mut row = board[x];
                row[y] = v;
                board[x] = row;
                assert(v as int == spawn_value(random));
                assert(cell(*board, x as int, y as int) == v);
                return (x, y);
            }
            c = c + 1;
        }
        i = i + 1;
    }
    (0, 0)
}

/// Fills one empty cell, chosen with a random byte, with a 2 or a 4. A grid
/// without an empty cell is left as it is.
pub fn generate_square(board: &mut Grid) -> (r: Result<(), SpawnError>)
    ensures
        empty_count(*old(board)) == 0 ==> r is Ok && *final(board) == *old(board),
        empty_count(*old(board)) > 0 && r is Ok ==> spawned(*old(board), *final(board)),
        r is Err ==> *final(board) == *old(board),
        valid_grid(*old(board)) ==> valid_grid(*final(board)),
{
    if count_empty(board) == 0 {
        return Ok(());
    }
    match random_byte() {
        Ok(random) => {
            let (x, y) = place_tile(board, random);
            proof {
                reveal_with_fuel(is_power_of_two, 3);
                assert(is_tile(2) && is_tile(4));
            }
            assert(filled(*old(board), *board, x as int, y as int, 2) || filled(
                *old(board),
                *board,
                x as int,
                y as int,
                4,
            ));
            Ok(())
        },
        Err(e) => Err(SpawnError::Entropy(e)),
    }
}

/// On a grid with a single empty cell, spawning fills exactly that cell,
/// with a 2 or a 4, and leaves every other cell as it was.
pub proof fn lemma_single_empty_cell_filled(before: Grid, after: Grid, x: int, y: int)
    requires
        in_grid(x, y),
        cell(before, x, y) == 0,
        forall|i: int, j: int| in_grid(i, j) && (i != x || j != y) ==> cell(before, i, j) != 0,
        spawned(before, after),
    ensures
        cell(after, x, y) == 2 || cell(after, x, y) == 4,
        forall|i: int, j: int|
            in_grid(i, j) && (i != x || j != y) ==> cell(after, i, j) == cell(before, i, j),
{
}

} // verus!
