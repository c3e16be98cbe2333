use tetris::logic::block_collided;
use tetris::logic::can_move;
use tetris::logic::freeze;
use tetris::logic::game_is_over;
use tetris::logic::remove_complete_rows;

const ROWS: usize = 27;
const COLS: usize = 10;

fn empty_board() -> Vec<Vec<u8>> {
    vec![vec![0u8; COLS]; ROWS]
}

#[test]
fn game_over_on_empty_board_is_false() {
    let board = empty_board();
    assert!(!game_is_over(&board));
}

#[test]
fn game_over_iff_overflow_row_occupied() {
    let mut board = empty_board();
    board[5][3] = 1;
    board[7][0] = 1;
    assert!(!game_is_over(&board));
    board[6][9] = 1;
    assert!(game_is_over(&board));
}

#[test]
fn collision_at_bottom_row() {
    let board = empty_board();
    let coords = vec![(26usize, 0usize), (25, 0), (24, 0), (23, 0)];
    assert!(block_collided(&board, &coords));
}

#[test]
fn collision_on_stationary_cell_below() {
    let mut board = empty_board();
    board[12][4] = 1;
    let coords = vec![(11usize, 4usize), (10, 4), (9, 4), (8, 4)];
    assert!(block_collided(&board, &coords));
}

#[test]
fn no_collision_while_floating() {
    let mut board = empty_board();
    board[12][4] = 1;
    let coords = vec![(10usize, 4usize), (9, 4), (8, 4), (7, 4)];
    assert!(!block_collided(&board, &coords));
}

#[test]
fn cannot_move_left_at_wall() {
    let board = empty_board();
    let coords = vec![(10usize, 0usize), (10, 1), (11, 0), (11, 1)];
    assert!(!can_move(&board, &coords, -1, 0));
    assert!(can_move(&board, &coords, 1, 0));
}

#[test]
fn cannot_move_left_into_stationary_cell() {
    let mut board = empty_board();
    board[11][3] = 1;
    let coords = vec![(10usize, 4usize), (10, 5), (11, 4), (11, 5)];
    assert!(!can_move(&board, &coords, -1, 0));
}

#[test]
fn cannot_move_right_at_wall() {
    let board = empty_board();
    let coords = vec![(10usize, 8usize), (10, 9), (11, 8), (11, 9)];
    assert!(!can_move(&board, &coords, 1, 0));
    assert!(can_move(&board, &coords, -1, 0));
}

#[test]
fn cannot_move_right_into_stationary_cell() {
    let mut board = empty_board();
    board[10][6] = 1;
    let coords = vec![(10usize, 4usize), (10, 5), (11, 4), (11, 5)];
    assert!(!can_move(&board, &coords, 1, 0));
}

#[test]
fn cannot_move_down_at_bottom() {
    let board = empty_board();
    let coords = vec![(25usize, 4usize), (25, 5), (26, 4), (26, 5)];
    assert!(!can_move(&board, &coords, 0, 1));
}

#[test]
fn cannot_move_down_onto_stationary_cell() {
    let mut board = empty_board();
    board[12][5] = 1;
    let coords = vec![(10usize, 4usize), (10, 5), (11, 4), (11, 5)];
    assert!(!can_move(&board, &coords, 0, 1));
    assert!(can_move(&board, &coords, -1, 0));
    assert!(can_move(&board, &coords, 1, 0));
}

#[test]
fn freeze_marks_all_four_cells() {
    let mut board = empty_board();
    let coords = vec![(25usize, 4usize), (25, 5), (26, 4), (26, 5)];
    freeze(&mut board, &coords);
    assert_eq!(board[25][4], 1);
    assert_eq!(board[25][5], 1);
    assert_eq!(board[26][4], 1);
    assert_eq!(board[26][5], 1);
    let mut marked = 0;
    for row in &board {
        for &cell in row {
            if cell == 1 {
                marked += 1;
            }
        }
    }
    assert_eq!(marked, 4);
}

#[test]
fn clear_with_no_complete_rows_is_a_no_op() {
    let mut board = empty_board();
    board[10][3] = 1;
    board[26][9] = 1;
    for j in 0..COLS - 1 {
        board[20][j] = 1;
    }
    let before = board.clone();
    remove_complete_rows(&mut board);
    assert_eq!(board, before);
}

#[test]
fn clear_single_complete_row() {
    let mut board = empty_board();
    for j in 0..COLS {
        board[10][j] = 1;
    }
    board[9][2] = 1;
    board[11][7] = 1;
    remove_complete_rows(&mut board);
    assert_eq!(board.len(), ROWS);
    assert_eq!(board[0], vec![0u8; COLS]);
    // Rows above the cleared one slide down a position; rows below stay.
    assert_eq!(board[10][2], 1);
    assert_eq!(board[11][7], 1);
    let stationary: usize = board.iter().flatten().filter(|&&c| c == 1).count();
    assert_eq!(stationary, 2);
}

#[test]
fn clear_two_adjacent_complete_rows() {
    let mut board = empty_board();
    for j in 0..COLS {
        board[7][j] = 1;
        board[8][j] = 1;
    }
    remove_complete_rows(&mut board);
    assert_eq!(board.len(), ROWS);
    let stationary: usize = board.iter().flatten().filter(|&&c| c == 1).count();
    assert_eq!(stationary, 0);
}

#[test]
fn clear_scan_skips_row_that_slides_into_cleared_slot() {
    // A complete hidden row slides into the cleared index and the ascending
    // scan does not re-check it: the board still holds a complete row after.
    let mut board = empty_board();
    for j in 0..COLS {
        board[6][j] = 1;
        board[7][j] = 1;
    }
    remove_complete_rows(&mut board);
    assert_eq!(board.len(), ROWS);
    assert_eq!(board[7], vec![1u8; COLS]);
    let stationary: usize = board.iter().flatten().filter(|&&c| c == 1).count();
    assert_eq!(stationary, COLS);
}
