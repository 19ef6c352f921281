use tile_merge::grid::{check_moves, Direction, Grid};
use tile_merge::mover::{move_board, move_square};
use tile_merge::spawn::{count_empty, generate_square, place_tile};

fn with_row(row: [u64; 4]) -> Grid {
    [row, [0; 4], [0; 4], [0; 4]]
}

fn total(b: &Grid) -> u64 {
    b.iter().flatten().sum()
}

fn occupied(b: &Grid) -> usize {
    b.iter().flatten().filter(|v| **v != 0).count()
}

fn checkerboard() -> Grid {
    [[2, 4, 2, 4], [4, 2, 4, 2], [2, 4, 2, 4], [4, 2, 4, 2]]
}

#[test]
fn row_with_pair_moved_left() {
    let mut b = with_row([2, 2, 4, 0]);
    assert_eq!(move_board(&mut b, Direction::Left), Some(4));
    assert_eq!(b, with_row([4, 4, 0, 0]));
}

#[test]
fn row_with_pair_moved_right() {
    let mut b = with_row([2, 2, 4, 0]);
    assert_eq!(move_board(&mut b, Direction::Right), Some(4));
    assert_eq!(b, with_row([0, 0, 4, 4]));
}

#[test]
fn slide_only_is_changed_with_zero_delta() {
    let mut b = with_row([0, 0, 2, 0]);
    assert_eq!(move_board(&mut b, Direction::Left), Some(0));
    assert_eq!(b, with_row([2, 0, 0, 0]));
}

#[test]
fn blocked_row_is_unchanged() {
    let mut b = with_row([2, 4, 8, 16]);
    assert_eq!(move_board(&mut b, Direction::Left), None);
    assert_eq!(b, with_row([2, 4, 8, 16]));
}

#[test]
fn full_grid_without_equal_neighbours_has_no_moves() {
    assert!(!check_moves(&checkerboard()));
}

#[test]
fn checkerboard_refuses_every_direction() {
    for d in [Direction::Up, Direction::Down, Direction::Left, Direction::Right] {
        let mut b = checkerboard();
        assert_eq!(move_board(&mut b, d), None);
        assert_eq!(b, checkerboard());
    }
}

#[test]
fn has_moves_with_one_empty_cell() {
    let mut b = checkerboard();
    b[2][1] = 0;
    assert!(check_moves(&b));
}

#[test]
fn has_moves_with_equal_neighbours() {
    let mut b = checkerboard();
    b[3][3] = 4;
    assert!(check_moves(&b));
    let mut c = checkerboard();
    c[0][0] = 4;
    assert!(check_moves(&c));
}

#[test]
fn has_moves_matches_enumeration() {
    // every grid made of the checkerboard with one or two cells changed to 8
    for i in 0..16usize {
        for j in i..16usize {
            let mut b = checkerboard();
            b[i / 4][i % 4] = 8;
            b[j / 4][j % 4] = 8;
            let adjacent = i != j && ((i / 4 == j / 4 && j - i == 1) || j - i == 4);
            assert_eq!(check_moves(&b), adjacent);
        }
    }
    assert!(check_moves(&[[0; 4]; 4]));
}

#[test]
fn four_equal_tiles_merge_pairwise() {
    let mut b = with_row([2, 2, 2, 2]);
    assert_eq!(move_board(&mut b, Direction::Left), Some(8));
    assert_eq!(b, with_row([4, 4, 0, 0]));
}

#[test]
fn merge_product_does_not_merge_again() {
    let mut b = with_row([4, 2, 2, 0]);
    assert_eq!(move_board(&mut b, Direction::Left), Some(4));
    assert_eq!(b, with_row([4, 4, 0, 0]));
    let mut c = with_row([2, 2, 4, 4]);
    assert_eq!(move_board(&mut c, Direction::Right), Some(12));
    assert_eq!(c, with_row([0, 0, 4, 8]));
}

#[test]
fn columns_move_up_and_down() {
    let b: Grid = [[2, 0, 0, 0], [0, 4, 0, 0], [2, 4, 0, 0], [8, 0, 0, 2]];
    let mut up = b;
    assert_eq!(move_board(&mut up, Direction::Up), Some(12));
    assert_eq!(up, [[4, 8, 0, 2], [8, 0, 0, 0], [0, 0, 0, 0], [0, 0, 0, 0]]);
    let mut down = b;
    assert_eq!(move_board(&mut down, Direction::Down), Some(12));
    assert_eq!(down, [[0, 0, 0, 0], [0, 0, 0, 0], [4, 0, 0, 0], [8, 8, 0, 2]]);
}

#[test]
fn move_keeps_total_and_never_adds_cells() {
    let b: Grid = [[2, 2, 4, 8], [0, 4, 4, 0], [16, 0, 16, 2], [2, 2, 2, 0]];
    for d in [Direction::Up, Direction::Down, Direction::Left, Direction::Right] {
        let mut m = b;
        move_board(&mut m, d);
        assert_eq!(total(&m), total(&b));
        assert!(occupied(&m) <= occupied(&b));
    }
}

#[test]
fn move_square_slides_then_merges() {
    let mut b = with_row([2, 0, 0, 2]);
    let mut marks = [[false; 4]; 4];
    assert_eq!(move_square(&mut b, &mut marks, 0, 3, Direction::Left), Some(4));
    assert_eq!(b, with_row([4, 0, 0, 0]));
    assert!(marks[0][0]);
}

#[test]
fn move_square_respects_merge_marks() {
    let mut b = with_row([4, 0, 4, 0]);
    let mut marks = [[false; 4]; 4];
    marks[0][0] = true;
    assert_eq!(move_square(&mut b, &mut marks, 0, 2, Direction::Left), Some(0));
    assert_eq!(b, with_row([4, 4, 0, 0]));
    assert_eq!(move_square(&mut b, &mut marks, 0, 3, Direction::Left), None);
}

#[test]
fn spawn_fills_the_single_empty_cell() {
    for r in 0..=255u8 {
        let mut b = checkerboard();
        b[1][2] = 0;
        let before = b;
        assert_eq!(place_tile(&mut b, r), (1, 2));
        assert_eq!(b[1][2], if r % 2 == 0 { 2 } else { 4 });
        let mut rest = b;
        rest[1][2] = 0;
        assert_eq!(rest, before);
    }
}

#[test]
fn spawn_picks_empty_cell_by_byte() {
    let mut b = with_row([2, 0, 4, 0]);
    // fourteen empty cells; byte 15 selects the second of them, (0, 3)
    assert_eq!(count_empty(&b), 14);
    assert_eq!(place_tile(&mut b, 15), (0, 3));
    assert_eq!(b, with_row([2, 0, 4, 4]));
    let mut c = [[0; 4]; 4];
    assert_eq!(place_tile(&mut c, 0), (0, 0));
    assert_eq!(c[0][0], 2);
}

#[test]
fn generate_square_leaves_full_grid() {
    let mut b = checkerboard();
    assert!(generate_square(&mut b).is_ok());
    assert_eq!(b, checkerboard());
}

#[test]
fn generate_square_adds_one_tile() {
    let mut b = with_row([2, 0, 0, 0]);
    assert!(generate_square(&mut b).is_ok());
    assert_eq!(count_empty(&b), 14);
    assert_eq!(b[0][0], 2);
    let added: u64 = total(&b) - 2;
    assert!(added == 2 || added == 4);
}

#[test]
fn slide_then_merge_counts_in_delta() {
    let mut b = with_row([2, 0, 0, 2]);
    assert_eq!(move_board(&mut b, Direction::Left), Some(4));
    assert_eq!(b, with_row([4, 0, 0, 0]));
}
