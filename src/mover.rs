//! The board mutator: a move in one direction slides every tile as far as it
//! goes and merges equal tiles, each tile at most once.
use vstd::prelude::*;

use crate::grid::{cell, grid_total, in_grid, is_power_of_two, is_tile, tile_count, valid_grid, Direction, Grid};

verus! {

/// Merge marks, one per cell: set on a cell that received a merge during the
/// current move, which then takes part in no further merge.
pub type Marks = [[bool; 4]; 4];

pub open spec fn mark(m: Marks, x: int, y: int) -> bool {
    m[x][y]
}

/// Coordinates of position `p` on line `l` for travel toward `d`. A line is a
/// row for `Left` and `Right` and a column for `Up` and `Down`; position 0 is
/// the cell at the edge the tiles travel toward.
pub open spec fn line_cell(d: Direction, l: int, p: int) -> (int, int) {
    match d {
        Direction::Left => (l, p),
        Direction::Right => (l, 3 - p),
        Direction::Up => (p, l),
        Direction::Down => (3 - p, l),
    }
}

/// The line that cell `(x, y)` lies on.
pub open spec fn line_index(d: Direction, x: int, y: int) -> int {
    match d {
        Direction::Left | Direction::Right => x,
        Direction::Up | Direction::Down => y,
    }
}

/// The position of cell `(x, y)` on its line.
pub open spec fn line_pos(d: Direction, x: int, y: int) -> int {
    match d {
        Direction::Left => y,
        Direction::Right => 3 - y,
        Direction::Up => x,
        Direction::Down => 3 - x,
    }
}

/// The values on line `l`, front first.
pub open spec fn line(b: Grid, d: Direction, l: int) -> Seq<int> {
    Seq::new(4, |p: int| cell(b, line_cell(d, l, p).0, line_cell(d, l, p).1))
}

pub open spec fn line_mark(m: Marks, d: Direction, l: int, p: int) -> bool {
    mark(m, line_cell(d, l, p).0, line_cell(d, l, p).1)
}

/// Sum of the values on marked cells.
pub open spec fn marked_total(b: Grid, m: Marks) -> int {
    marked_row(b, m, 0) + marked_row(b, m, 1) + marked_row(b, m, 2) + marked_row(b, m, 3)
}

pub open spec fn marked_cell(b: Grid, m: Marks, x: int, y: int) -> int {
    if mark(m, x, y) {
        cell(b, x, y)
    } else {
        0
    }
}

pub open spec fn marked_row(b: Grid, m: Marks, x: int) -> int {
    marked_cell(b, m, x, 0) + marked_cell(b, m, x, 1) + marked_cell(b, m, x, 2) + marked_cell(
        b,
        m,
        x,
        3,
    )
}

/// Every marked cell on the lines toward `d` holds a tile.
pub open spec fn marks_on_tiles(b: Grid, m: Marks, d: Direction) -> bool {
    forall|k: int, i: int|
        0 <= k < 4 && 0 <= i < 4 && line_mark(m, d, k, i) ==> line(b, d, k)[i] != 0
}

/// The position a tile at `p` slides to over the empty cells in front of it.
pub open spec fn reach(s: Seq<int>, p: int) -> int
    decreases p,
{
    if p > 0 && s[p - 1] == 0 {
        reach(s, p - 1)
    } else {
        p
    }
}

/// The tiles of `s` taken front to back. Each tile merges into the tile
/// placed last when the two are equal and that tile is not itself the
/// product of a merge; otherwise it is placed behind it. Returns the placed
/// tiles, front first, and for each whether it is the product of a merge.
pub open spec fn settle(s: Seq<int>) -> (Seq<int>, Seq<bool>)
    decreases s.len(),
{
    if s.len() == 0 {
        (Seq::empty(), Seq::empty())
    } else {
        let prev = settle(s.drop_last());
        let o = prev.0;
        let m = prev.1;
        let v = s.last();
        if v == 0 {
            (o, m)
        } else if o.len() > 0 && o.last() == v && !m.last() {
            (o.drop_last().push(v + v), m.drop_last().push(true))
        } else {
            (o.push(v), m.push(false))
        }
    }
}

pub open spec fn zeros(n: int) -> Seq<int> {
    Seq::new(n as nat, |i: int| 0)
}

/// Line `s` after a move: the settled tiles at the front, empty cells behind.
pub open spec fn merged_line(s: Seq<int>) -> Seq<int> {
    settle(s).0 + zeros(s.len() - settle(s).0.len())
}

/// Sum of the values in `o` whose flag in `m` is set.
pub open spec fn marked_sum(o: Seq<int>, m: Seq<bool>) -> int
    decreases o.len(),
{
    if o.len() == 0 || m.len() == 0 {
        0
    } else {
        marked_sum(o.drop_last(), m.drop_last()) + if m.last() {
            o.last()
        } else {
            0
        }
    }
}

/// Score of moving line `s`: the sum of the values that its merges produce.
pub open spec fn line_gain(s: Seq<int>) -> int {
    marked_sum(settle(s).0, settle(s).1)
}

/// Score of the first `n` lines of a move toward `d`.
pub open spec fn gain_upto(b: Grid, d: Direction, n: int) -> int
    decreases n,
{
    if n <= 0 {
        0
    } else {
        gain_upto(b, d, n - 1) + line_gain(line(b, d, n - 1))
    }
}

/// Score of a move toward `d`: the sum of the values its merges produce.
pub open spec fn move_gain(b: Grid, d: Direction) -> int {
    gain_upto(b, d, 4)
}

fn line_cell_exec(d: Direction, l: usize, p: usize) -> (r: (usize, usize))
    requires
        l < 4,
        p < 4,
    ensures
        (r.0 as int, r.1 as int) == line_cell(d, l as int, p as int),
{
    match d {
        Direction::Left => (l, p),
        Direction::Right => (l, 3 - p),
        Direction::Up => (p, l),
        Direction::Down => (3 - p, l),
    }
}

fn line_of_cell(d: Direction, x: usize, y: usize) -> (r: (usize, usize))
    requires
        x < 4,
        y < 4,
    ensures
        r.0 as int == line_index(d, x as int, y as int),
        r.1 as int == line_pos(d, x as int, y as int),
        r.0 < 4,
        r.1 < 4,
        line_cell(d, r.0 as int, r.1 as int) == (x as int, y as int),
{
    match d {
        Direction::Left => (x, y),
        Direction::Right => (x, 3 - y),
        Direction::Up => (y, x),
        Direction::Down => (y, 3 - x),
    }
}

/// Writes `v` at position `p` of line `l`.
#[verifier::rlimit(100)]
fn set_line_cell(board: &mut Grid, marks: &Marks, d: Direction, l: usize, p: usize, v: u64)
    requires
        l < 4,
        p < 4,
    ensures
        line(*final(board), d, l as int) == line(*old(board), d, l as int).update(p as int, v as int),
        forall|k: int|
            0 <= k < 4 && k != l ==> line(*final(board), d, k) == line(*old(board), d, k),
        grid_total(*final(board)) == grid_total(*old(board)) - line(*old(board), d, l as int)[p as int] + v,
        tile_count(*final(board)) == tile_count(*old(board)) - (if line(*old(board), d, l as int)[p as int] != 0 { 1int } else { 0 }) + (if v != 0 { 1int } else { 0 }),
        marked_total(*final(board), *marks) == marked_total(*old(board), *marks) + (if line_mark(*marks, d, l as int, p as int) { v - line(*old(board), d, l as int)[p as int] } else { 0 }),
{
    let (x, y) = line_cell_exec(d, l, p);
    let mut row = board[x];
    row[y] = v;
    board[x] = row;
    assert(line(*board, d, l as int) =~= line(*old(board), d, l as int).update(p as int, v as int));
    assert forall|k: int| 0 <= k < 4 && k != l implies line(*board, d, k) == line(*old(board), d, k) by {
        assert(line(*board, d, k) =~= line(*old(board), d, k));
    }
}

/// Sets the merge mark at position `p` of line `l`.
fn set_line_mark(marks: &mut Marks, board: &Grid, d: Direction, l: usize, p: usize)
    requires
        l < 4,
        p < 4,
    ensures
        forall|k: int, i: int|
            0 <= k < 4 && 0 <= i < 4 ==> line_mark(*final(marks), d, k, i) == ((k == l && i == p) || line_mark(*old(marks), d, k, i)),
        marked_total(*board, *final(marks)) == marked_total(*board, *old(marks)) + (if line_mark(*old(marks), d, l as int, p as int) { 0 } else { line(*board, d, l as int)[p as int] }),
{
    let (x, y) = line_cell_exec(d, l, p);
    let mut row = marks[x];
    row[y] = true;
    marks[x] = row;
}

proof fn lemma_pair_within_total(b: Grid, d: Direction, l: int, i: int, j: int)
    requires
        0 <= l < 4,
        0 <= i < 4,
        0 <= j < 4,
        i != j,
    ensures
        line(b, d, l)[i] + line(b, d, l)[j] <= grid_total(b),
{
}

/// Moves the tile at `(x, y)` toward `dir`: it slides over the empty cells
/// ahead of it, then merges into the next tile when that one holds the same
/// value and has no merge mark. Returns the merged value after a merge,
/// `Some(0)` after a slide alone, and `None` when the tile did not move (or
/// the cell is empty).
#[verifier::rlimit(100)]
pub fn move_square(board: &mut Grid, merged: &mut Marks, x: usize, y: usize, dir: Direction) -> (r: Option<u64>)
    requires
        x < 4,
        y < 4,
        grid_total(*old(board)) <= u64::MAX,
        !mark(*old(merged), x as int, y as int),
        marks_on_tiles(*old(board), *old(merged), dir),
    ensures
        marks_on_tiles(*final(board), *final(merged), dir),
        ({
            let l = line_index(dir, x as int, y as int);
            let p = line_pos(dir, x as int, y as int);
            let s = line(*old(board), dir, l);
            let v = s[p];
            let q = reach(s, p);
            let merges = v != 0 && q > 0 && s[q - 1] == v && !line_mark(*old(merged), dir, l, q - 1);
            &&& forall|k: int| 0 <= k < 4 && k != l ==> line(*final(board), dir, k) == line(*old(board), dir, k)
            &&& merges ==> {
                &&& r == Some((v + v) as u64)
                &&& line(*final(board), dir, l) == s.update(p, 0).update(q - 1, v + v)
                &&& forall|k: int, i: int|
                    0 <= k < 4 && 0 <= i < 4 ==> line_mark(*final(merged), dir, k, i) == ((k == l && i == q - 1) || line_mark(*old(merged), dir, k, i))
            }
            &&& (v != 0 && !merges && q < p) ==> {
                &&& r == Some(0u64)
                &&& line(*final(board), dir, l) == s.update(p, 0).update(q, v)
                &&& *final(merged) == *old(merged)
            }
            &&& (v == 0 || (!merges && q == p)) ==> {
                &&& r is None
                &&& *final(board) == *old(board)
                &&& *final(merged) == *old(merged)
            }
        }),
        grid_total(*final(board)) == grid_total(*old(board)),
        tile_count(*final(board)) <= tile_count(*old(board)),
        marked_total(*final(board), *final(merged)) == marked_total(*old(board), *old(merged)) + match r {
            Some(g) => g as int,
            None => 0,
        },
{
    let v = board[x][y];
    let ghost l = line_index(dir, x as int, y as int);
    let ghost s = line(*board, dir, l);
    if v == 0 {
        return None;
    }
    let (li, p0) = line_of_cell(dir, x, y);
    assert(s[p0 as int] == v);
    let mut q: usize = p0;
    while q > 0 && is_empty_at(board, dir, li, q - 1)
        invariant
            0 <= q <= p0 < 4,
            li == l,
            li < 4,
            s == line(*board, dir, l),
            reach(s, p0 as int) == reach(s, q as int),
            forall|i: int| q <= i < p0 ==> s[i] == 0,
        decreases q,
    {
        q = q - 1;
    }
    assert(reach(s, q as int) == q);
    if q > 0 && board_at(board, dir, li, q - 1) == v && !mark_at(merged, dir, li, q - 1) {
        proof {
            lemma_pair_within_total(*board, dir, l, p0 as int, q - 1);
        }
        set_line_cell(board, merged, dir, li, q - 1, v + v);
        set_line_cell(board, merged, dir, li, p0, 0);
        set_line_mark(merged, board, dir, li, q - 1);
        assert(line(*board, dir, l) =~= s.update(p0 as int, 0).update(q - 1, v + v));
        Some(v + v)
    } else if q < p0 {
        set_line_cell(board, merged, dir, li, q, v);
        set_line_cell(board, merged, dir, li, p0, 0);
        assert(line(*board, dir, l) =~= s.update(p0 as int, 0).update(q as int, v as int));
        Some(0)
    } else {
        None
    }
}

fn board_at(board: &Grid, d: Direction, l: usize, p: usize) -> (r: u64)
    requires
        l < 4,
        p < 4,
    ensures
        r as int == line(*board, d, l as int)[p as int],
{
    let (x, y) = line_cell_exec(d, l, p);
    board[x][y]
}

fn is_empty_at(board: &Grid, d: Direction, l: usize, p: usize) -> (r: bool)
    requires
        l < 4,
        p < 4,
    ensures
        r == (line(*board, d, l as int)[p as int] == 0),
{
    board_at(board, d, l, p) == 0
}

fn mark_at(marks: &Marks, d: Direction, l: usize, p: usize) -> (r: bool)
    requires
        l < 4,
        p < 4,
    ensures
        r == line_mark(*marks, d, l as int, p as int),
{
    let (x, y) = line_cell_exec(d, l, p);
    marks[x][y]
}

proof fn lemma_settle_shape(s: Seq<int>)
    ensures
        settle(s).0.len() == settle(s).1.len(),
        settle(s).0.len() <= s.len(),
        forall|i: int| 0 <= i < settle(s).0.len() ==> settle(s).0[i] != 0,
    decreases s.len(),
{
    if s.len() > 0 {
        lemma_settle_shape(s.drop_last());
    }
}

proof fn lemma_reach_stops(t: Seq<int>, k: int, p: int)
    requires
        0 <= k <= p < t.len(),
        forall|i: int| k <= i < p ==> t[i] == 0,
        k == 0 || t[k - 1] != 0,
    ensures
        reach(t, p) == k,
    decreases p,
{
    if p > k {
        lemma_reach_stops(t, k, p - 1);
    }
}

proof fn lemma_marked_within_total(b: Grid, m: Marks)
    ensures
        0 <= marked_total(b, m) <= grid_total(b),
{
}

/// The line and marks seen by the tile at `p` while line `s` is settled
/// front to back, and what they become once that tile has moved.
proof fn lemma_settle_step(s: Seq<int>, p: int, lm: Seq<bool>)
    requires
        0 <= p < 4,
        s.len() == 4,
        lm.len() == 4,
        forall|i: int|
            0 <= i < settle(s.subrange(0, p)).0.len() ==> lm[i] == settle(s.subrange(0, p)).1[i],
        forall|i: int| settle(s.subrange(0, p)).0.len() <= i < 4 ==> !lm[i],
    ensures
        ({
            let o = settle(s.subrange(0, p)).0;
            let mk = settle(s.subrange(0, p)).1;
            let o2 = settle(s.subrange(0, p + 1)).0;
            let mk2 = settle(s.subrange(0, p + 1)).1;
            let cur = o + zeros(p - o.len()) + s.subrange(p, 4);
            let v = s[p];
            let q = reach(cur, p);
            let merges = v != 0 && q > 0 && cur[q - 1] == v && !lm[q - 1];
            let next = if merges {
                cur.update(p, 0).update(q - 1, v + v)
            } else if v != 0 && q < p {
                cur.update(p, 0).update(q, v)
            } else {
                cur
            };
            &&& o.len() <= p
            &&& cur.len() == 4
            &&& cur[p] == v
            &&& 0 <= q <= p
            &&& v != 0 ==> q == o.len()
            &&& o2.len() == mk2.len()
            &&& o2.len() <= p + 1
            &&& forall|i: int| 0 <= i < o2.len() ==> mk2[i] == (lm[i] || (merges && i == q - 1))
            &&& forall|i: int| o2.len() <= i < 4 ==> !(lm[i] || (merges && i == q - 1))
            &&& marked_sum(o2, mk2) == marked_sum(o, mk) + if merges {
                v + v
            } else {
                0
            }
            &&& next == o2 + zeros(p + 1 - o2.len()) + s.subrange(p + 1, 4)
        }),
{
    let pre = s.subrange(0, p);
    let o = settle(pre).0;
    let mk = settle(pre).1;
    let o2 = settle(s.subrange(0, p + 1)).0;
    let mk2 = settle(s.subrange(0, p + 1)).1;
    let cur = o + zeros(p - o.len()) + s.subrange(p, 4);
    let v = s[p];
    lemma_settle_shape(pre);
    lemma_settle_shape(s.subrange(0, p + 1));
    assert(s.subrange(0, p + 1).drop_last() =~= pre);
    assert(cur[p] == v);
    if v != 0 {
        lemma_reach_stops(cur, o.len() as int, p);
    } else {
        lemma_reach_bounds(cur, p);
    }
    let q = reach(cur, p);
    let merges = v != 0 && q > 0 && cur[q - 1] == v && !lm[q - 1];
    if merges {
        assert(cur[q - 1] == o.last());
        assert(o2 == o.drop_last().push(v + v));
        assert(mk2.drop_last() =~= mk.drop_last());
        assert(o2.drop_last() =~= o.drop_last());
        assert(cur.update(p, 0).update(q - 1, v + v) =~= o2 + zeros(p + 1 - o2.len()) + s.subrange(p + 1, 4));
    } else if v != 0 {
        assert(o2.drop_last() =~= o);
        assert(mk2.drop_last() =~= mk);
        if q < p {
            assert(cur.update(p, 0).update(q, v) =~= o2 + zeros(p + 1 - o2.len()) + s.subrange(p + 1, 4));
        } else {
            assert(cur =~= o2 + zeros(p + 1 - o2.len()) + s.subrange(p + 1, 4));
        }
    } else {
        assert(cur =~= o2 + zeros(p + 1 - o2.len()) + s.subrange(p + 1, 4));
    }
}

proof fn lemma_reach_bounds(t: Seq<int>, p: int)
    requires
        0 <= p,
    ensures
        0 <= reach(t, p) <= p,
    decreases p,
{
    if p > 0 {
        lemma_reach_bounds(t, p - 1);
    }
}

pub open spec fn line_marks(m: Marks, d: Direction, l: int) -> Seq<bool> {
    Seq::new(4, |i: int| line_mark(m, d, l, i))
}

/// Moves every tile of line `l` toward `dir`, front to back. Returns the sum
/// of the values its merges produce.
#[verifier::rlimit(100)]
fn settle_line(board: &mut Grid, merged: &mut Marks, dir: Direction, l: usize) -> (gain: u64)
    requires
        l < 4,
        grid_total(*old(board)) <= u64::MAX,
        marks_on_tiles(*old(board), *old(merged), dir),
        forall|i: int| 0 <= i < 4 ==> !line_mark(*old(merged), dir, l as int, i),
    ensures
        line(*final(board), dir, l as int) == merged_line(line(*old(board), dir, l as int)),
        forall|k: int| 0 <= k < 4 && k != l ==> line(*final(board), dir, k) == line(*old(board), dir, k),
        forall|k: int, i: int|
            0 <= k < 4 && k != l && 0 <= i < 4 ==> line_mark(*final(merged), dir, k, i) == line_mark(*old(merged), dir, k, i),
        marks_on_tiles(*final(board), *final(merged), dir),
        gain == line_gain(line(*old(board), dir, l as int)),
        marked_total(*final(board), *final(merged)) == marked_total(*old(board), *old(merged)) + gain,
        grid_total(*final(board)) == grid_total(*old(board)),
        tile_count(*final(board)) <= tile_count(*old(board)),
{
    let ghost s = line(*board, dir, l as int);
    let mut gain: u64 = 0;
    let mut p: usize = 0;
    proof {
        assert(s.subrange(0, 0) =~= Seq::<int>::empty());
        assert(line(*board, dir, l as int) =~= settle(s.subrange(0, 0)).0 + zeros(0) + s.subrange(0, 4));
    }
    while p < 4
        invariant
            0 <= p <= 4,
            l < 4,
            s == line(*old(board), dir, l as int),
            line(*board, dir, l as int) == settle(s.subrange(0, p as int)).0 + zeros(
                p - settle(s.subrange(0, p as int)).0.len(),
            ) + s.subrange(p as int, 4),
            forall|i: int|
                0 <= i < settle(s.subrange(0, p as int)).0.len() ==> line_mark(*merged, dir, l as int, i)
                    == settle(s.subrange(0, p as int)).1[i],
            forall|i: int|
                settle(s.subrange(0, p as int)).0.len() <= i < 4 ==> !line_mark(*merged, dir, l as int, i),
            forall|k: int| 0 <= k < 4 && k != l ==> line(*board, dir, k) == line(*old(board), dir, k),
            forall|k: int, i: int|
                0 <= k < 4 && k != l && 0 <= i < 4 ==> line_mark(*merged, dir, k, i) == line_mark(*old(merged), dir, k, i),
            marks_on_tiles(*board, *merged, dir),
            gain == marked_sum(settle(s.subrange(0, p as int)).0, settle(s.subrange(0, p as int)).1),
            marked_total(*board, *merged) == marked_total(*old(board), *old(merged)) + gain,
            grid_total(*board) == grid_total(*old(board)),
            grid_total(*old(board)) <= u64::MAX,
            tile_count(*board) <= tile_count(*old(board)),
        decreases 4 - p,
    {
        let ghost lm = line_marks(*merged, dir, l as int);
        proof {
            lemma_settle_shape(s.subrange(0, p as int));
            assert forall|i: int| 0 <= i < 4 implies lm[i] == line_mark(*merged, dir, l as int, i) by {}
            lemma_settle_step(s, p as int, lm);
        }
        let (x, y) = line_cell_exec(dir, l, p);
        assert(!lm[p as int]);
        let r = move_square(board, merged, x, y, dir);
        match r {
            Some(g) => {
                proof {
                    lemma_marked_within_total(*board, *merged);
                }
                gain = gain + g;
            },
            None => {},
        }
        p = p + 1;
    }
    proof {
        assert(s.subrange(0, 4) =~= s);
        assert(s.subrange(4, 4) =~= Seq::<int>::empty());
        assert(line(*board, dir, l as int) =~= merged_line(s));
    }
    gain
}

/// Whether the two grids hold the same value in every cell.
fn same_grid(a: &Grid, b: &Grid) -> (r: bool)
    ensures
        r == (*a == *b),
{
    let mut x: usize = 0;
    while x < 4
        invariant
            0 <= x <= 4,
            forall|i: int| 0 <= i < x ==> a[i] == b[i],
        decreases 4 - x,
    {
        let mut y: usize = 0;
        while y < 4
            invariant
                0 <= x < 4,
                0 <= y <= 4,
                forall|j: int| 0 <= j < y ==> a[x as int][j] == b[x as int][j],
            decreases 4 - y,
        {
            if a[x][y] != b[x][y] {
                return false;
            }
            y = y + 1;
        }
        assert(a[x as int] =~= b[x as int]);
        x = x + 1;
    }
    assert(*a =~= *b);
    true
}

/// Moves every tile toward `dir`. Each line along `dir` becomes its settled
/// form; the grid keeps its total and loses no more cells than it merges.
/// Returns `None` when nothing moved, and otherwise the sum of the values
/// that the merges produced.
pub fn move_board(board: &mut Grid, dir: Direction) -> (r: Option<u64>)
    requires
        grid_total(*old(board)) <= u64::MAX,
    ensures
        forall|l: int|
            0 <= l < 4 ==> line(*final(board), dir, l) == merged_line(line(*old(board), dir, l)),
        grid_total(*final(board)) == grid_total(*old(board)),
        tile_count(*final(board)) <= tile_count(*old(board)),
        r is None <==> *final(board) == *old(board),
        r matches Some(g) ==> g == move_gain(*old(board), dir),
        valid_grid(*old(board)) ==> valid_grid(*final(board)),
{
    let before: Grid = *board;
    let mut merged: Marks = [[false; 4]; 4];
    let mut score: u64 = 0;
    let mut l: usize = 0;
    assert(marked_total(*board, merged) == 0);
    while l < 4
        invariant
            0 <= l <= 4,
            before == *old(board),
            grid_total(before) <= u64::MAX,
            forall|k: int| 0 <= k < l ==> line(*board, dir, k) == merged_line(line(before, dir, k)),
            forall|k: int| l <= k < 4 ==> line(*board, dir, k) == line(before, dir, k),
            forall|k: int, i: int| l <= k < 4 && 0 <= i < 4 ==> !line_mark(merged, dir, k, i),
            marks_on_tiles(*board, merged, dir),
            score == gain_upto(before, dir, l as int),
            marked_total(*board, merged) == score,
            grid_total(*board) == grid_total(before),
            tile_count(*board) <= tile_count(before),
        decreases 4 - l,
    {
        let g = settle_line(board, &mut merged, dir, l);
        proof {
            lemma_marked_within_total(*board, merged);
        }
        score = score + g;
        l = l + 1;
    }
    proof {
        if valid_grid(before) {
            lemma_valid_lines(before, *board, dir);
        }
    }
    if same_grid(board, &before) {
        None
    } else {
        Some(score)
    }
}

/// The tiles of `s`, front first, without the empty cells.
pub open spec fn tiles(s: Seq<int>) -> Seq<int>
    decreases s.len(),
{
    if s.len() == 0 {
        Seq::empty()
    } else if s.last() != 0 {
        tiles(s.drop_last()).push(s.last())
    } else {
        tiles(s.drop_last())
    }
}

/// The settled tiles `o` with each merge product (flagged in `m`) taken
/// apart into the two equal tiles it was made of.
pub open spec fn expand(o: Seq<int>, m: Seq<bool>) -> Seq<int>
    decreases o.len(),
{
    if o.len() == 0 || m.len() == 0 {
        Seq::empty()
    } else if m.last() {
        expand(o.drop_last(), m.drop_last()).push(o.last() / 2).push(o.last() / 2)
    } else {
        expand(o.drop_last(), m.drop_last()).push(o.last())
    }
}

/// After a move, every tile of a line is either a tile of the line before
/// the move or the product of one merge of exactly two equal tiles, taken in
/// their order along the line: taking each merge product apart again gives
/// back the tiles of the line before the move, so the values are conserved
/// and no tile is produced by more than one merge.
pub proof fn lemma_merges_expand_to_tiles(s: Seq<int>)
    ensures
        expand(settle(s).0, settle(s).1) == tiles(s),
    decreases s.len(),
{
    if s.len() > 0 {
        let pre = s.drop_last();
        lemma_merges_expand_to_tiles(pre);
        lemma_settle_shape(pre);
        let o = settle(pre).0;
        let m = settle(pre).1;
        let v = s.last();
        if v != 0 && o.len() > 0 && o.last() == v && !m.last() {
            let o2 = o.drop_last().push(v + v);
            let m2 = m.drop_last().push(true);
            assert(o2.drop_last() =~= o.drop_last());
            assert(m2.drop_last() =~= m.drop_last());
            assert(expand(o, m) == expand(o.drop_last(), m.drop_last()).push(v));
            assert(expand(o2, m2) =~= expand(o.drop_last(), m.drop_last()).push(v).push(v));
        } else if v != 0 {
            assert(o.push(v).drop_last() =~= o);
            assert(m.push(false).drop_last() =~= m);
        }
    }
}

proof fn lemma_settle_keeps_tiles(s: Seq<int>)
    requires
        forall|i: int| 0 <= i < s.len() ==> is_tile(s[i]),
    ensures
        forall|i: int| 0 <= i < settle(s).0.len() ==> is_tile(settle(s).0[i]),
    decreases s.len(),
{
    if s.len() > 0 {
        lemma_settle_keeps_tiles(s.drop_last());
        lemma_settle_shape(s.drop_last());
        let o = settle(s.drop_last()).0;
        let v = s.last();
        assert(is_tile(v));
        if v >= 2 {
            assert((v + v) / 2 == v);
            assert(is_power_of_two(v + v));
        }
        let out = settle(s).0;
        assert forall|i: int| 0 <= i < out.len() implies is_tile(out[i]) by {
            if i < o.len() - 1 {
                assert(out[i] == o[i]);
            } else if i == o.len() - 1 {
                assert(out[i] == o[i] || out[i] == v + v);
            } else {
                assert(out[i] == v);
            }
        }
    }
}

/// A grid whose lines toward `d` each settle from the lines of a valid grid
/// is valid.
proof fn lemma_valid_lines(before: Grid, after: Grid, d: Direction)
    requires
        valid_grid(before),
        forall|l: int| 0 <= l < 4 ==> line(after, d, l) == merged_line(line(before, d, l)),
    ensures
        valid_grid(after),
{
    assert forall|l: int, p: int| 0 <= l < 4 && 0 <= p < 4 implies is_tile(line(after, d, l)[p]) by {
        let s = line(before, d, l);
        assert forall|i: int| 0 <= i < s.len() implies is_tile(s[i]) by {
            let c = line_cell(d, l, i);
            assert(in_grid(c.0, c.1));
            assert(s[i] == cell(before, c.0, c.1));
        }
        lemma_settle_keeps_tiles(s);
        lemma_settle_shape(s);
    }
    assert forall|x: int, y: int| in_grid(x, y) implies is_tile(cell(after, x, y)) by {
        let l = line_index(d, x, y);
        let p = line_pos(d, x, y);
        assert(line_cell(d, l, p) == (x, y));
        assert(line(after, d, l)[p] == cell(after, x, y));
    }
}

} // verus!
