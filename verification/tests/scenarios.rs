use tetris::logic::block_collided;
use tetris::logic::can_move;
use tetris::logic::freeze;
use tetris::logic::game_is_over;
use tetris::logic::handle_intent;
use tetris::logic::remove_complete_rows;
use tetris::logic::shift;
use tetris::logic::spawn_coords;
use tetris::Action;
use tetris::Block;

const ROWS: usize = 27;
const COLS: usize = 10;

fn empty_board() -> Vec<Vec<u8>> {
    vec![vec![0u8; COLS]; ROWS]
}

#[test]
fn o_piece_falls_to_the_floor_and_freezes() {
    let mut board = empty_board();
    let mut coords = spawn_coords(&Block::O, 4);
    assert_eq!(coords, vec![(0, 4), (0, 5), (1, 4), (1, 5)]);

    let mut landings = 0;
    for _ in 0..26 {
        if can_move(&board, &coords, 0, 1) {
            shift(&mut coords, 0, 1);
        }
        if block_collided(&board, &coords) {
            freeze(&mut board, &coords);
            remove_complete_rows(&mut board);
            landings += 1;
            break;
        }
    }
    assert_eq!(landings, 1);
    assert_eq!(coords, vec![(25, 4), (25, 5), (26, 4), (26, 5)]);
    assert_eq!(board[25][4], 1);
    assert_eq!(board[25][5], 1);
    assert_eq!(board[26][4], 1);
    assert_eq!(board[26][5], 1);
    assert!(!game_is_over(&board));
}

#[test]
fn o_piece_falls_through_the_loop_step() {
    let mut board = empty_board();
    let mut coords = spawn_coords(&Block::O, 4);
    for _ in 0..26 {
        let stop = handle_intent(&mut board, &mut coords, &Action::MoveDown);
        assert!(!stop);
    }
    assert_eq!(board[25][4], 1);
    assert_eq!(board[25][5], 1);
    assert_eq!(board[26][4], 1);
    assert_eq!(board[26][5], 1);
    assert!(!game_is_over(&board));
}

#[test]
fn i_piece_completes_and_clears_a_row() {
    let mut board = empty_board();
    // Row 7 is fully stationary except its last column, and a stationary
    // cell at (11, 9) will catch the falling piece with its top at row 7.
    for j in 0..COLS - 1 {
        board[7][j] = 1;
    }
    board[11][9] = 1;

    let mut coords = spawn_coords(&Block::I, 9);
    assert_eq!(coords, vec![(0, 9), (1, 9), (2, 9), (3, 9)]);

    loop {
        if can_move(&board, &coords, 0, 1) {
            shift(&mut coords, 0, 1);
        }
        if block_collided(&board, &coords) {
            break;
        }
    }
    assert_eq!(coords, vec![(7, 9), (8, 9), (9, 9), (10, 9)]);

    freeze(&mut board, &coords);
    assert_eq!(board[7], vec![1u8; COLS]);

    remove_complete_rows(&mut board);
    assert_eq!(board.len(), ROWS);
    assert_eq!(board[0], vec![0u8; COLS]);
    assert_eq!(board[7], vec![0u8; COLS]);
    // The frozen cells below the cleared row keep their place.
    assert_eq!(board[8][9], 1);
    assert_eq!(board[9][9], 1);
    assert_eq!(board[10][9], 1);
    assert_eq!(board[11][9], 1);
    let stationary: usize = board.iter().flatten().filter(|&&c| c == 1).count();
    assert_eq!(stationary, 4);
}

#[test]
fn quit_stops_the_loop_without_touching_the_state() {
    let mut board = empty_board();
    board[20][2] = 1;
    let mut coords = spawn_coords(&Block::T, 3);
    let board_before = board.clone();
    let coords_before = coords.clone();

    let stop = handle_intent(&mut board, &mut coords, &Action::UserQuit);
    assert!(stop);
    assert_eq!(board, board_before);
    assert_eq!(coords, coords_before);
}

#[test]
fn impossible_moves_are_discarded() {
    let mut board = empty_board();
    let mut coords = spawn_coords(&Block::I, 0);
    let stop = handle_intent(&mut board, &mut coords, &Action::MoveLeft);
    assert!(!stop);
    assert_eq!(coords, vec![(0, 0), (1, 0), (2, 0), (3, 0)]);
    let stop = handle_intent(&mut board, &mut coords, &Action::MoveRight);
    assert!(!stop);
    assert_eq!(coords, vec![(0, 1), (1, 1), (2, 1), (3, 1)]);
}

#[test]
fn overflow_row_signals_game_over_after_a_tall_stack() {
    let mut board = empty_board();
    // A stack in one column that has reached the overflow row.
    for i in 6..ROWS {
        board[i][0] = 1;
    }
    assert!(game_is_over(&board));
}
