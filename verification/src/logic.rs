//! The board model and the game-loop decisions.
//!
//! A board is a `rows x cols` grid of occupancy cells (`0` empty,
//! `1` stationary); the active piece is a vector of four `(row, col)`
//! coordinates. Contracts speak about the mathematical content of the
//! board, `grid(board@)`, a sequence of cell sequences.

use vstd::prelude::*;

use crate::models::Action;
use crate::models::Block;
use crate::models::block_matrix;

verus! {

/// Number of columns of the board.
pub const COLS: usize = 10;

/// Number of rows shown on screen.
pub const VISIBLE_ROWS: usize = 20;

/// Number of hidden buffer rows above the visible area, used for spawning
/// and overflow detection.
pub const HIDDEN_ROWS: usize = 7;

/// Total number of board rows.
pub const ROWS: usize = HIDDEN_ROWS + VISIBLE_ROWS;

/// The fixed hidden row whose occupancy signals game-over.
pub const OVERFLOW_ROW: usize = HIDDEN_ROWS - 1;

/// The mathematical content of a board: one cell sequence per row.
pub open spec fn grid(b: Seq<Vec<u8>>) -> Seq<Seq<u8>> {
    Seq::new(b.len(), |i: int| b[i]@)
}

/// Well-formed board: the fixed number of rows, each with the fixed number
/// of columns.
pub open spec fn board_wf(g: Seq<Seq<u8>>) -> bool {
    &&& g.len() == ROWS
    &&& forall|i: int| 0 <= i < g.len() ==> (#[trigger] g[i]).len() == COLS
}

/// Every cell of the row is stationary.
pub open spec fn row_complete(r: Seq<u8>) -> bool {
    forall|j: int| 0 <= j < r.len() ==> r[j] == 1
}

/// Some cell of the row is stationary.
pub open spec fn row_occupied(r: Seq<u8>) -> bool {
    exists|j: int| 0 <= j < r.len() && r[j] == 1
}

/// A row of `n` empty cells.
pub open spec fn empty_row(n: nat) -> Seq<u8> {
    Seq::new(n, |j: int| 0u8)
}

/// All piece coordinates lie inside the fixed board bounds.
pub open spec fn piece_in_bounds(cs: Seq<(usize, usize)>) -> bool {
    forall|k: int| 0 <= k < cs.len() ==> (#[trigger] cs[k]).0 < ROWS && cs[k].1 < COLS
}

/// Every piece cell has a column greater than 0 and an empty cell to its
/// immediate left: the piece may move one column left.
pub open spec fn clear_left(g: Seq<Seq<u8>>, cs: Seq<(usize, usize)>) -> bool {
    forall|k: int| 0 <= k < cs.len()
        ==> (#[trigger] cs[k]).1 > 0 && g[cs[k].0 as int][cs[k].1 - 1] == 0
}

/// Every piece cell is left of the last column and has an empty cell to its
/// immediate right: the piece may move one column right.
pub open spec fn clear_right(g: Seq<Seq<u8>>, cs: Seq<(usize, usize)>) -> bool {
    forall|k: int| 0 <= k < cs.len()
        ==> (#[trigger] cs[k]).1 + 1 < COLS && g[cs[k].0 as int][cs[k].1 + 1] == 0
}

/// Every piece cell is above the last row and has an empty cell directly
/// below: the piece may move one row down.
pub open spec fn clear_below(g: Seq<Seq<u8>>, cs: Seq<(usize, usize)>) -> bool {
    forall|k: int| 0 <= k < cs.len()
        ==> (#[trigger] cs[k]).0 + 1 < g.len() && g[cs[k].0 + 1][cs[k].1 as int] == 0
}

/// No piece cell overlaps a stationary board cell.
pub open spec fn piece_on_empty(g: Seq<Seq<u8>>, cs: Seq<(usize, usize)>) -> bool {
    forall|k: int| 0 <= k < cs.len() ==> g[(#[trigger] cs[k]).0 as int][cs[k].1 as int] == 0
}

/// Some piece cell sits in the last row, or directly above a stationary
/// cell: the piece has landed.
pub open spec fn landed(g: Seq<Seq<u8>>, cs: Seq<(usize, usize)>) -> bool {
    exists|k: int| 0 <= k < cs.len()
        && ((#[trigger] cs[k]).0 == g.len() - 1 || g[cs[k].0 + 1][cs[k].1 as int] == 1)
}

/// The last hidden row contains a stationary cell: stationary material has
/// overflowed the visible area and the game is over.
pub fn game_is_over(board: &Vec<Vec<u8>>) -> (over: bool)
    requires
        OVERFLOW_ROW < board@.len(),
    ensures
        over == row_occupied(grid(board@)[OVERFLOW_ROW as int]),
{
    let r: &Vec<u8> = &board[OVERFLOW_ROW];
    let mut j: usize = 0;
    while j < r.len()
        invariant
            j <= r@.len(),
            r@ == grid(board@)[OVERFLOW_ROW as int],
            forall|t: int| 0 <= t < j ==> r@[t] != 1,
        decreases r@.len() - j,
    {
        if r[j] == 1 {
            return true;
        }
        j += 1;
    }
    false
}

/// Whether the active piece has landed: some piece cell is in the last row,
/// or the cell directly below it is stationary.
pub fn block_collided(board: &Vec<Vec<u8>>, falling_cells_coords: &Vec<(usize, usize)>) -> (hit:
    bool)
    requires
        board_wf(grid(board@)),
        piece_in_bounds(falling_cells_coords@),
    ensures
        hit == landed(grid(board@), falling_cells_coords@),
{
    let cs = falling_cells_coords;
    let mut k: usize = 0;
    while k < cs.len()
        invariant
            k <= cs@.len(),
            cs@ == falling_cells_coords@,
            board_wf(grid(board@)),
            piece_in_bounds(cs@),
            forall|t: int| 0 <= t < k
                ==> !((#[trigger] cs@[t]).0 == grid(board@).len() - 1
                    || grid(board@)[cs@[t].0 + 1][cs@[t].1 as int] == 1),
        decreases cs@.len() - k,
    {
        let (row, col) = cs[k];
        assert(cs@[k as int].0 < ROWS && cs@[k as int].1 < COLS);
        if row == board.len() - 1 {
            return true;
        }
        assert(grid(board@)[row + 1].len() == COLS);
        if board[row + 1][col] == 1 {
            return true;
        }
        k += 1;
    }
    false
}

/// Whether the active piece may move one step in the requested direction:
/// one column left (`dx == -1`), one column right (`dx == 1`) or one row
/// down (`dy == 1`). Bounds and occupancy are checked per axis; diagonal
/// movement is never requested.
pub fn can_move(
    board: &Vec<Vec<u8>>,
    coords: &Vec<(usize, usize)>,
    dx: i32,
    dy: i32,
) -> (ok: bool)
    requires
        board_wf(grid(board@)),
        piece_in_bounds(coords@),
        (dx == -1 && dy == 0) || (dx == 1 && dy == 0) || (dx == 0 && dy == 1),
    ensures
        dx == -1 ==> ok == clear_left(grid(board@), coords@),
        dx == 1 ==> ok == clear_right(grid(board@), coords@),
        dy == 1 ==> ok == clear_below(grid(board@), coords@),
{
    let mut k: usize = 0;
    while k < coords.len()
        invariant
            k <= coords@.len(),
            board_wf(grid(board@)),
            piece_in_bounds(coords@),
            (dx == -1 && dy == 0) || (dx == 1 && dy == 0) || (dx == 0 && dy == 1),
            dx == -1 ==> forall|t: int| 0 <= t < k
                ==> (#[trigger] coords@[t]).1 > 0
                    && grid(board@)[coords@[t].0 as int][coords@[t].1 - 1] == 0,
            dx == 1 ==> forall|t: int| 0 <= t < k
                ==> (#[trigger] coords@[t]).1 + 1 < COLS
                    && grid(board@)[coords@[t].0 as int][coords@[t].1 + 1] == 0,
            dy == 1 ==> forall|t: int| 0 <= t < k
                ==> (#[trigger] coords@[t]).0 + 1 < grid(board@).len()
                    && grid(board@)[coords@[t].0 + 1][coords@[t].1 as int] == 0,
        decreases coords@.len() - k,
    {
        let (row, col) = coords[k];
        assert(coords@[k as int].0 < ROWS && coords@[k as int].1 < COLS);
        assert(grid(board@)[row as int].len() == COLS);
        if dx == -1 {
            if !(col > 0 && board[row][col - 1] == 0) {
                return false;
            }
        } else if dx == 1 {
            if !(col + 1 < COLS && board[row][col + 1] == 0) {
                return false;
            }
        } else {
            if row + 1 >= board.len() {
                return false;
            }
            assert(grid(board@)[row + 1].len() == COLS);
            if board[row + 1][col] != 0 {
                return false;
            }
        }
        k += 1;
    }
    true
}

/// The coordinates of a piece after one step in direction `(dx, dy)`.
pub open spec fn shifted(cs: Seq<(usize, usize)>, dx: int, dy: int) -> Seq<(usize, usize)> {
    Seq::new(cs.len(), |k: int| (((cs[k].0 + dy) as usize, (cs[k].1 + dx) as usize)))
}

/// Translate the active piece one step in the requested direction, in place.
pub fn shift(coords: &mut Vec<(usize, usize)>, dx: i32, dy: i32)
    requires
        (dx == -1 && dy == 0) || (dx == 1 && dy == 0) || (dx == 0 && dy == 1),
        piece_in_bounds(old(coords)@),
        dx == -1 ==> forall|k: int| 0 <= k < old(coords)@.len()
            ==> (#[trigger] old(coords)@[k]).1 > 0,
        dx == 1 ==> forall|k: int| 0 <= k < old(coords)@.len()
            ==> (#[trigger] old(coords)@[k]).1 + 1 < COLS,
        dy == 1 ==> forall|k: int| 0 <= k < old(coords)@.len()
            ==> (#[trigger] old(coords)@[k]).0 + 1 < ROWS,
    ensures
        final(coords)@ == shifted(old(coords)@, dx as int, dy as int),
        piece_in_bounds(final(coords)@),
{
    let mut k: usize = 0;
    while k < coords.len()
        invariant
            k <= coords@.len(),
            coords@.len() == old(coords)@.len(),
            (dx == -1 && dy == 0) || (dx == 1 && dy == 0) || (dx == 0 && dy == 1),
            piece_in_bounds(old(coords)@),
            dx == -1 ==> forall|t: int| 0 <= t < old(coords)@.len()
                ==> (#[trigger] old(coords)@[t]).1 > 0,
            dx == 1 ==> forall|t: int| 0 <= t < old(coords)@.len()
                ==> (#[trigger] old(coords)@[t]).1 + 1 < COLS,
            dy == 1 ==> forall|t: int| 0 <= t < old(coords)@.len()
                ==> (#[trigger] old(coords)@[t]).0 + 1 < ROWS,
            forall|t: int| 0 <= t < k
                ==> #[trigger] coords@[t] == shifted(old(coords)@, dx as int, dy as int)[t],
            forall|t: int| k <= t < coords@.len() ==> #[trigger] coords@[t] == old(coords)@[t],
        decreases coords@.len() - k,
    {
        let (row, col) = coords[k];
        assert(coords@[k as int] == old(coords)@[k as int]);
        assert(old(coords)@[k as int].0 < ROWS && old(coords)@[k as int].1 < COLS);
        let nrow: usize = if dy == 1 { row + 1 } else { row };
        let ncol: usize = if dx == -1 { col - 1 } else if dx == 1 { col + 1 } else { col };
        coords.set(k, (nrow, ncol));
        k += 1;
    }
    proof {
        assert(coords@ =~= shifted(old(coords)@, dx as int, dy as int));
    }
}

/// The piece covers board position `(i, j)`.
pub open spec fn covers(cs: Seq<(usize, usize)>, i: int, j: int) -> bool {
    exists|k: int| 0 <= k < cs.len() && (#[trigger] cs[k]).0 == i && cs[k].1 == j
}

/// The board after every cell covered by the piece is marked stationary.
pub open spec fn frozen(g: Seq<Seq<u8>>, cs: Seq<(usize, usize)>) -> Seq<Seq<u8>> {
    Seq::new(
        g.len(),
        |i: int| Seq::new(g[i].len(), |j: int| if covers(cs, i, j) { 1u8 } else { g[i][j] }),
    )
}

/// Mark every cell of the active piece as stationary.
pub fn freeze(board: &mut Vec<Vec<u8>>, falling_cells_coords: &Vec<(usize, usize)>)
    requires
        board_wf(grid(old(board)@)),
        piece_in_bounds(falling_cells_coords@),
    ensures
        grid(final(board)@) == frozen(grid(old(board)@), falling_cells_coords@),
        board_wf(grid(final(board)@)),
{
    let cs = falling_cells_coords;
    let ghost g0 = grid(old(board)@);
    let mut k: usize = 0;
    while k < cs.len()
        invariant
            k <= cs@.len(),
            cs@ == falling_cells_coords@,
            piece_in_bounds(cs@),
            board_wf(g0),
            board_wf(grid(board@)),
            grid(board@) =~~= frozen(g0, cs@.take(k as int)),
        decreases cs@.len() - k,
    {
        let (row, col) = cs[k];
        assert(cs@[k as int].0 < ROWS && cs@[k as int].1 < COLS);
        assert(grid(board@)[row as int].len() == COLS);
        let ghost gpre = grid(board@);
        let mut rowv: Vec<u8> = board[row].clone();
        proof {
            assert(rowv@ =~= gpre[row as int]);
        }
        rowv.set(col, 1);
        board.set(row, rowv);
        proof {
            assert(board_wf(gpre));
            assert(board@.len() == ROWS);
            assert(grid(board@)[row as int] == rowv@);
            assert(rowv@.len() == COLS);
            assert(forall|i: int|
                0 <= i < ROWS && i != row ==> #[trigger] grid(board@)[i] == gpre[i]);
            assert(board_wf(grid(board@)));
            let tk = cs@.take(k as int);
            let tk1 = cs@.take(k + 1);
            assert forall|i: int, j: int| covers(tk1, i, j) implies (covers(tk, i, j) || (i
                == row && j == col)) by {
                let w = choose|w: int|
                    0 <= w < tk1.len() && (#[trigger] tk1[w]).0 == i && tk1[w].1 == j;
                if w < k {
                    assert(tk[w].0 == i && tk[w].1 == j);
                } else {
                    assert(tk1[w] == cs@[k as int]);
                }
            }
            assert forall|i: int, j: int| covers(tk, i, j) implies covers(tk1, i, j) by {
                let w = choose|w: int|
                    0 <= w < tk.len() && (#[trigger] tk[w]).0 == i && tk[w].1 == j;
                assert(tk1[w].0 == i && tk1[w].1 == j);
            }
            assert(covers(tk1, row as int, col as int)) by {
                assert(tk1[k as int].0 == row as int && tk1[k as int].1 == col as int);
            }
            assert(grid(board@) =~~= frozen(g0, tk1)) by {
                assert forall|i: int| 0 <= i < g0.len() implies grid(board@)[i] =~= frozen(
                    g0,
                    tk1,
                )[i] by {
                    assert(grid(board@)[i].len() == COLS);
                    assert(frozen(g0, tk1)[i].len() == g0[i].len());
                    assert forall|j: int| 0 <= j < g0[i].len() implies grid(board@)[i][j]
                        == frozen(g0, tk1)[i][j] by {
                        if i == row {
                            assert(grid(board@)[i] == rowv@);
                            if j == col {
                                assert(grid(board@)[i][j] == 1);
                            } else {
                                assert(grid(board@)[i][j] == gpre[i][j]);
                                assert(covers(tk1, i, j) == covers(tk, i, j));
                            }
                        } else {
                            assert(grid(board@)[i] == gpre[i]);
                            assert(covers(tk1, i, j) == covers(tk, i, j));
                        }
                    }
                }
            }
        }
        k += 1;
    }
    proof {
        assert(cs@.take(cs@.len() as int) =~= cs@);
    }
}

/// One clearing step: the row at index `i` is removed and a fresh empty row
/// is inserted at the very top of the board, so rows above `i` slide down
/// one position and the row count is preserved.
pub open spec fn clear_step(g: Seq<Seq<u8>>, i: int) -> Seq<Seq<u8>> {
    g.remove(i).insert(0, empty_row(COLS as nat))
}

/// The board after one ascending scan for complete rows starting at index
/// `i`: every complete row met by the scan is removed and an empty row
/// enters at the top. The scan then moves to the next index without
/// re-checking the row that slid into the cleared position.
pub open spec fn cleared_from(g: Seq<Seq<u8>>, i: int) -> Seq<Seq<u8>>
    decreases g.len() - i,
{
    if i < 0 || i >= g.len() {
        g
    } else if row_complete(g[i]) {
        cleared_from(clear_step(g, i), i + 1)
    } else {
        cleared_from(g, i + 1)
    }
}

fn row_filled(r: &Vec<u8>) -> (b: bool)
    ensures
        b == row_complete(r@),
{
    let mut j: usize = 0;
    while j < r.len()
        invariant
            j <= r@.len(),
            forall|t: int| 0 <= t < j ==> r@[t] == 1,
        decreases r@.len() - j,
    {
        if r[j] != 1 {
            return false;
        }
        j += 1;
    }
    true
}

fn zero_row() -> (r: Vec<u8>)
    ensures
        r@ == empty_row(COLS as nat),
{
    let mut r: Vec<u8> = Vec::new();
    let mut j: usize = 0;
    while j < COLS
        invariant
            j <= COLS,
            r@.len() == j,
            forall|t: int| 0 <= t < j ==> r@[t] == 0,
        decreases COLS - j,
    {
        r.push(0);
        j += 1;
    }
    proof {
        assert(r@ =~= empty_row(COLS as nat));
    }
    r
}

/// Scan the visible rows from top to bottom; remove every complete row met
/// by the scan and insert an empty row at the very top of the board in its
/// stead, preserving the total row count.
pub fn remove_complete_rows(board: &mut Vec<Vec<u8>>)
    requires
        board_wf(grid(old(board)@)),
    ensures
        grid(final(board)@) == cleared_from(grid(old(board)@), HIDDEN_ROWS as int),
        board_wf(grid(final(board)@)),
{
    let mut row: usize = HIDDEN_ROWS;
    while row < board.len()
        invariant
            HIDDEN_ROWS <= row <= board@.len(),
            board_wf(grid(board@)),
            cleared_from(grid(old(board)@), HIDDEN_ROWS as int) == cleared_from(
                grid(board@),
                row as int,
            ),
        decreases board@.len() - row,
    {
        let ghost gpre = grid(board@);
        let ghost bpre = board@;
        if row_filled(&board[row]) {
            assert(row_complete(gpre[row as int]));
            board.remove(row);
            let empty: Vec<u8> = zero_row();
            board.insert(0, empty);
            proof {
                assert(grid(board@) =~~= clear_step(gpre, row as int)) by {
                    let b1 = bpre.remove(row as int);
                    let g1 = gpre.remove(row as int);
                    bpre.remove_ensures(row as int);
                    gpre.remove_ensures(row as int);
                    assert(grid(b1) =~= g1);
                    b1.insert_ensures(0, empty);
                    g1.insert_ensures(0, empty_row(COLS as nat));
                    assert forall|i: int| 0 <= i < board@.len() implies grid(board@)[i]
                        == clear_step(gpre, row as int)[i] by {
                        if i == 0 {
                            assert(grid(board@)[0] == empty@);
                            assert(clear_step(gpre, row as int)[0] == empty_row(COLS as nat));
                        } else {
                            assert(board@[i] == b1[i - 1]);
                            assert(clear_step(gpre, row as int)[i] == g1[i - 1]);
                        }
                    }
                }
                assert(board_wf(grid(board@)));
                assert(cleared_from(gpre, row as int) == cleared_from(
                    clear_step(gpre, row as int),
                    row + 1,
                ));
            }
        }
        row += 1;
    }
}

/// An ascending scan that meets no complete row leaves the board unchanged.
pub proof fn lemma_cleared_from_no_complete(g: Seq<Seq<u8>>, i: int)
    requires
        forall|r: int| i <= r < g.len() ==> !row_complete(#[trigger] g[r]),
    ensures
        cleared_from(g, i) == g,
    decreases g.len() - i,
{
    if 0 <= i < g.len() {
        lemma_cleared_from_no_complete(g, i + 1);
    }
}

/// A scan may start anywhere below a stretch of rows with no complete row:
/// the stretch contributes nothing.
pub proof fn lemma_cleared_from_skip(g: Seq<Seq<u8>>, i: int, m: int)
    requires
        0 <= i <= m <= g.len(),
        forall|r: int| i <= r < m ==> !row_complete(#[trigger] g[r]),
    ensures
        cleared_from(g, i) == cleared_from(g, m),
    decreases m - i,
{
    if i < m {
        lemma_cleared_from_skip(g, i + 1, m);
    }
}

/// Clearing a board with no complete visible row is a no-op.
pub proof fn lemma_clear_no_op(g: Seq<Seq<u8>>)
    requires
        board_wf(g),
        forall|r: int| HIDDEN_ROWS <= r < g.len() ==> !row_complete(#[trigger] g[r]),
    ensures
        cleared_from(g, HIDDEN_ROWS as int) == g,
{
    lemma_cleared_from_no_complete(g, HIDDEN_ROWS as int);
}

/// Clearing a board whose only complete visible row is `r` removes exactly
/// that row: an empty row enters at index 0, the rows above `r` slide down
/// one position, the rows below `r` keep their place, and the total row
/// count is unchanged.
pub proof fn lemma_clear_single_row(g: Seq<Seq<u8>>, r: int)
    requires
        board_wf(g),
        HIDDEN_ROWS <= r < g.len(),
        row_complete(g[r]),
        forall|t: int| HIDDEN_ROWS <= t < g.len() && t != r ==> !row_complete(#[trigger] g[t]),
    ensures
        cleared_from(g, HIDDEN_ROWS as int) == clear_step(g, r),
        cleared_from(g, HIDDEN_ROWS as int).len() == g.len(),
        cleared_from(g, HIDDEN_ROWS as int)[0] == empty_row(COLS as nat),
        forall|i: int| 1 <= i <= r ==> cleared_from(g, HIDDEN_ROWS as int)[i] == g[i - 1],
        forall|i: int| r < i < g.len() ==> cleared_from(g, HIDDEN_ROWS as int)[i] == g[i],
{
    lemma_cleared_from_skip(g, HIDDEN_ROWS as int, r);
    let g2 = clear_step(g, r);
    g.remove_ensures(r);
    g.remove(r).insert_ensures(0, empty_row(COLS as nat));
    assert(g2.len() == g.len());
    assert(g2[0] == empty_row(COLS as nat));
    assert(forall|i: int| 1 <= i <= r ==> #[trigger] g2[i] == g[i - 1]);
    assert(forall|i: int| r < i < g.len() ==> #[trigger] g2[i] == g[i]);
    assert(cleared_from(g, r) == cleared_from(g2, r + 1));
    lemma_cleared_from_no_complete(g2, r + 1);
}

/// A piece with a cell in column 0, or with a stationary cell immediately
/// to its left, cannot move left; symmetrically, a piece with a cell in the
/// last column, or with a stationary cell immediately to its right, cannot
/// move right.
pub proof fn lemma_blocked_sideways(g: Seq<Seq<u8>>, cs: Seq<(usize, usize)>)
    requires
        board_wf(g),
        piece_in_bounds(cs),
    ensures
        (exists|k: int|
            0 <= k < cs.len() && ((#[trigger] cs[k]).1 == 0 || g[cs[k].0 as int][cs[k].1
                - 1] == 1)) ==> !clear_left(g, cs),
        (exists|k: int|
            0 <= k < cs.len() && ((#[trigger] cs[k]).1 == COLS - 1 || g[cs[k].0 as int][cs[k].1
                + 1] == 1)) ==> !clear_right(g, cs),
{
}

/// The relative cells of a shape, row-major: the positions of the 1 cells
/// of its matrix.
pub open spec fn shape_cells(b: Block) -> Seq<(int, int)> {
    match b {
        Block::L => seq![(0int, 0int), (1int, 0int), (1int, 1int), (1int, 2int)],
        Block::O => seq![(0int, 0int), (0int, 1int), (1int, 0int), (1int, 1int)],
        Block::T => seq![(0int, 1int), (1int, 0int), (1int, 1int), (1int, 2int)],
        Block::I => seq![(0int, 0int), (1int, 0int), (2int, 0int), (3int, 0int)],
        Block::S => seq![(0int, 1int), (0int, 2int), (1int, 0int), (1int, 1int)],
        Block::Z => seq![(0int, 0int), (0int, 1int), (1int, 1int), (1int, 2int)],
        Block::J => seq![(0int, 2int), (1int, 0int), (1int, 1int), (1int, 2int)],
    }
}

/// Width of a shape's matrix, in columns.
pub open spec fn shape_width(b: Block) -> int {
    match b {
        Block::O => 2,
        Block::I => 1,
        _ => 3,
    }
}

/// Height of a shape's matrix, in rows.
pub open spec fn shape_height(b: Block) -> int {
    match b {
        Block::I => 4,
        _ => 2,
    }
}

/// The absolute board coordinates of a shape spawned with its matrix at row
/// 0 and its leftmost column at `c`.
pub open spec fn spawn_seq(b: Block, c: int) -> Seq<(usize, usize)> {
    Seq::new(4, |k: int| ((shape_cells(b)[k].0 as usize, (shape_cells(b)[k].1 + c) as usize)))
}

/// A freshly spawned piece: exactly four coordinates, all inside the hidden
/// spawn region at the top of the board and within the board's columns.
pub open spec fn spawn_ok(cs: Seq<(usize, usize)>) -> bool {
    cs.len() == 4 && forall|k: int|
        0 <= k < cs.len() ==> (#[trigger] cs[k]).0 < 4 && cs[k].1 < COLS
}

/// Spawning any shape at any valid column yields exactly four coordinates,
/// each with a row inside the shape's matrix height and a column between
/// the spawn column and the last board column.
pub proof fn lemma_spawn_in_footprint(b: Block, c: int)
    requires
        0 <= c,
        c + shape_width(b) <= COLS,
    ensures
        spawn_seq(b, c).len() == 4,
        forall|k: int|
            0 <= k < 4 ==> 0 <= (#[trigger] spawn_seq(b, c)[k]).0 < shape_height(b) && c
                <= spawn_seq(b, c)[k].1 < COLS,
        spawn_ok(spawn_seq(b, c)),
        piece_in_bounds(spawn_seq(b, c)),
{
    assert forall|k: int| 0 <= k < 4 implies 0 <= (#[trigger] spawn_seq(b, c)[k]).0
        < shape_height(b) && c <= spawn_seq(b, c)[k].1 < COLS by {
        let rel = shape_cells(b)[k];
        assert(0 <= rel.0 < shape_height(b) && 0 <= rel.1 < shape_width(b)) by {
            match b {
                Block::L => {},
                Block::O => {},
                Block::T => {},
                Block::I => {},
                Block::S => {},
                Block::Z => {},
                Block::J => {},
            }
        }
    }
}

/// The four board coordinates of a shape spawned with its matrix at row 0
/// and its leftmost column at `spawn_col`: the cells of the matrix, offset
/// by the spawn column.
pub fn spawn_coords(block: &Block, spawn_col: usize) -> (r: Vec<(usize, usize)>)
    requires
        spawn_col + shape_width(*block) <= COLS,
    ensures
        r@ == spawn_seq(*block, spawn_col as int),
        spawn_ok(r@),
        piece_in_bounds(r@),
{
    let mut r: Vec<(usize, usize)> = Vec::new();
    match block {
        Block::L => {
            r.push((0, spawn_col));
            r.push((1, spawn_col));
            r.push((1, spawn_col + 1));
            r.push((1, spawn_col + 2));
        },
        Block::O => {
            r.push((0, spawn_col));
            r.push((0, spawn_col + 1));
            r.push((1, spawn_col));
            r.push((1, spawn_col + 1));
        },
        Block::T => {
            r.push((0, spawn_col + 1));
            r.push((1, spawn_col));
            r.push((1, spawn_col + 1));
            r.push((1, spawn_col + 2));
        },
        Block::I => {
            r.push((0, spawn_col));
            r.push((1, spawn_col));
            r.push((2, spawn_col));
            r.push((3, spawn_col));
        },
        Block::S => {
            r.push((0, spawn_col + 1));
            r.push((0, spawn_col + 2));
            r.push((1, spawn_col));
            r.push((1, spawn_col + 1));
        },
        Block::Z => {
            r.push((0, spawn_col));
            r.push((0, spawn_col + 1));
            r.push((1, spawn_col + 1));
            r.push((1, spawn_col + 2));
        },
        Block::J => {
            r.push((0, spawn_col + 2));
            r.push((1, spawn_col));
            r.push((1, spawn_col + 1));
            r.push((1, spawn_col + 2));
        },
    }
    proof {
        assert(r@ =~= spawn_seq(*block, spawn_col as int));
        lemma_spawn_in_footprint(*block, spawn_col as int);
    }
    r
}

/// The matrix of each shape is rectangular, with the shape's width and
/// height.
pub proof fn lemma_matrix_dims(b: Block)
    ensures
        block_matrix(b).len() == shape_height(b),
        forall|i: int|
            0 <= i < block_matrix(b).len() ==> (#[trigger] block_matrix(b)[i]).len()
                == shape_width(b),
{
    match b {
        Block::L => {},
        Block::O => {},
        Block::T => {},
        Block::I => {},
        Block::S => {},
        Block::Z => {},
        Block::J => {},
    }
}

/// The relative cells of each shape are exactly the positions of the 1
/// cells of its matrix, so a spawned piece covers the same cells the matrix
/// marks.
pub proof fn lemma_shape_cells_match_matrix(b: Block)
    ensures
        forall|i: int, j: int|
            0 <= i < block_matrix(b).len() && 0 <= j < block_matrix(b)[i].len() ==> (
            block_matrix(b)[i][j] == 1 <==> shape_cells(b).contains((i, j))),
{
    let cells = shape_cells(b);
    match b {
        Block::L => {
            assert(cells[0] == (0int, 0int) && cells[1] == (1int, 0int) && cells[2] == (
            1int,
            1int,
            ) && cells[3] == (1int, 2int));
        },
        Block::O => {
            assert(cells[0] == (0int, 0int) && cells[1] == (0int, 1int) && cells[2] == (
            1int,
            0int,
            ) && cells[3] == (1int, 1int));
        },
        Block::T => {
            assert(cells[0] == (0int, 1int) && cells[1] == (1int, 0int) && cells[2] == (
            1int,
            1int,
            ) && cells[3] == (1int, 2int));
        },
        Block::I => {
            assert(cells[0] == (0int, 0int) && cells[1] == (1int, 0int) && cells[2] == (
            2int,
            0int,
            ) && cells[3] == (3int, 0int));
        },
        Block::S => {
            assert(cells[0] == (0int, 1int) && cells[1] == (0int, 2int) && cells[2] == (
            1int,
            0int,
            ) && cells[3] == (1int, 1int));
        },
        Block::Z => {
            assert(cells[0] == (0int, 0int) && cells[1] == (0int, 1int) && cells[2] == (
            1int,
            1int,
            ) && cells[3] == (1int, 2int));
        },
        Block::J => {
            assert(cells[0] == (0int, 2int) && cells[1] == (1int, 0int) && cells[2] == (
            1int,
            1int,
            ) && cells[3] == (1int, 2int));
        },
    }
}

/// Spawn a new active piece: a shape drawn at random, placed at row 0 and
/// at a column drawn uniformly from the valid range for the shape's width.
pub fn generate_block() -> (r: Vec<(usize, usize)>)
    ensures
        exists|b: Block, c: int| 0 <= c && c + shape_width(b) <= COLS && r@ == spawn_seq(b, c),
        spawn_ok(r@),
        piece_in_bounds(r@),
{
    let spawn_block: Block = Block::random();
    let matrix: Vec<Vec<u8>> = spawn_block.get_matrix();
    proof {
        lemma_matrix_dims(spawn_block);
    }
    let block_width: usize = matrix[0].len();
    assert(block_width == shape_width(spawn_block));
    let spawn_col: usize = crate::models::random_below(COLS - block_width + 1);
    let coords = spawn_coords(&spawn_block, spawn_col);
    proof {
        assert(0 <= spawn_col as int && spawn_col as int + shape_width(spawn_block) <= COLS
            && coords@ == spawn_seq(spawn_block, spawn_col as int));
    }
    coords
}

/// The piece after a movement intent is applied against a board: shifted
/// one step if the board permits the move, unchanged otherwise. A quit
/// intent moves nothing.
pub open spec fn moved(g: Seq<Seq<u8>>, cs: Seq<(usize, usize)>, a: Action) -> Seq<
    (usize, usize),
> {
    match a {
        Action::MoveLeft => if clear_left(g, cs) {
            shifted(cs, -1, 0)
        } else {
            cs
        },
        Action::MoveRight => if clear_right(g, cs) {
            shifted(cs, 1, 0)
        } else {
            cs
        },
        Action::MoveDown => if clear_below(g, cs) {
            shifted(cs, 0, 1)
        } else {
            cs
        },
        Action::UserQuit => cs,
    }
}

/// Free fall on a board with no stationary cells: the piece may move down
/// exactly while no cell of it touches the last row, it has landed exactly
/// when one does, and freezing it marks exactly its own cells stationary.
pub proof fn lemma_free_fall(g: Seq<Seq<u8>>, cs: Seq<(usize, usize)>)
    requires
        board_wf(g),
        piece_in_bounds(cs),
        forall|i: int, j: int| #![trigger g[i][j]]
            0 <= i < g.len() && 0 <= j < g[i].len() ==> g[i][j] == 0,
    ensures
        clear_below(g, cs) <==> (forall|k: int|
            0 <= k < cs.len() ==> (#[trigger] cs[k]).0 + 1 < ROWS),
        landed(g, cs) <==> (exists|k: int|
            0 <= k < cs.len() && (#[trigger] cs[k]).0 == ROWS - 1),
        forall|i: int, j: int| #![trigger frozen(g, cs)[i][j]]
            0 <= i < g.len() && 0 <= j < g[i].len() ==> (frozen(g, cs)[i][j] == 1 <==> covers(
                cs,
                i,
                j,
            )),
{
    if forall|k: int| 0 <= k < cs.len() ==> (#[trigger] cs[k]).0 + 1 < ROWS {
        assert forall|k: int| 0 <= k < cs.len() implies (#[trigger] cs[k]).0 + 1 < g.len()
            && g[cs[k].0 + 1][cs[k].1 as int] == 0 by {
            assert(g[cs[k].0 + 1].len() == COLS);
        }
        assert(clear_below(g, cs));
    }
    if landed(g, cs) {
        let k = choose|k: int|
            0 <= k < cs.len() && ((#[trigger] cs[k]).0 == g.len() - 1 || g[cs[k].0 + 1][cs[k].1
                as int] == 1);
        if cs[k].0 != ROWS - 1 {
            assert(cs[k].0 + 1 < ROWS);
            assert(g[cs[k].0 + 1][cs[k].1 as int] == 0);
        }
        assert(cs[k].0 == ROWS - 1);
    }
    if exists|k: int| 0 <= k < cs.len() && (#[trigger] cs[k]).0 == ROWS - 1 {
        let k = choose|k: int| 0 <= k < cs.len() && (#[trigger] cs[k]).0 == ROWS - 1;
        assert(cs[k].0 == g.len() - 1);
        assert(landed(g, cs));
    }
    assert forall|i: int, j: int| #![trigger frozen(g, cs)[i][j]]
        0 <= i < g.len() && 0 <= j < g[i].len() implies (frozen(g, cs)[i][j] == 1 <==> covers(
        cs,
        i,
        j,
    )) by {
        assert(frozen(g, cs)[i].len() == g[i].len());
        assert(g[i][j] == 0);
    }
}

/// A frozen piece that leaves some column untouched completes no row on a
/// board that held no stationary cells, so the clearing scan that follows
/// the freeze is a no-op there.
pub proof fn lemma_frozen_clears_nothing(g: Seq<Seq<u8>>, cs: Seq<(usize, usize)>, j0: int)
    requires
        board_wf(g),
        piece_in_bounds(cs),
        forall|i: int, j: int| #![trigger g[i][j]]
            0 <= i < g.len() && 0 <= j < g[i].len() ==> g[i][j] == 0,
        0 <= j0 < COLS,
        forall|k: int| 0 <= k < cs.len() ==> (#[trigger] cs[k]).1 != j0,
    ensures
        cleared_from(frozen(g, cs), HIDDEN_ROWS as int) == frozen(g, cs),
{
    let f = frozen(g, cs);
    assert forall|r: int| HIDDEN_ROWS <= r < f.len() implies !row_complete(#[trigger] f[r]) by {
        assert(!covers(cs, r, j0));
        assert(f[r].len() == g[r].len());
        assert(f[r][j0] == g[r][j0]);
        assert(f[r][j0] == 0);
    }
    assert(board_wf(f));
    lemma_clear_no_op(f);
}

/// A movement intent never moves the piece onto a stationary cell: a piece
/// that sits on empty cells still does after the intent is applied or
/// discarded, since a move is only applied where the destination cells are
/// empty.
pub proof fn lemma_moved_keeps_empty(g: Seq<Seq<u8>>, cs: Seq<(usize, usize)>, a: Action)
    requires
        board_wf(g),
        piece_in_bounds(cs),
        piece_on_empty(g, cs),
    ensures
        piece_on_empty(g, moved(g, cs, a)),
{
    match a {
        Action::MoveLeft => {
            if clear_left(g, cs) {
                let m = shifted(cs, -1, 0);
                assert forall|k: int| 0 <= k < m.len() implies g[(#[trigger] m[k]).0 as int][m[k].1 as int] == 0 by {
                    assert(cs[k].1 > 0 && g[cs[k].0 as int][cs[k].1 - 1] == 0);
                }
            }
        },
        Action::MoveRight => {
            if clear_right(g, cs) {
                let m = shifted(cs, 1, 0);
                assert forall|k: int| 0 <= k < m.len() implies g[(#[trigger] m[k]).0 as int][m[k].1 as int] == 0 by {
                    assert(cs[k].1 + 1 < COLS && g[cs[k].0 as int][cs[k].1 + 1] == 0);
                }
            }
        },
        Action::MoveDown => {
            if clear_below(g, cs) {
                let m = shifted(cs, 0, 1);
                assert forall|k: int| 0 <= k < m.len() implies g[(#[trigger] m[k]).0 as int][m[k].1 as int] == 0 by {
                    assert(cs[k].0 + 1 < g.len() && g[cs[k].0 + 1][cs[k].1 as int] == 0);
                }
            }
        },
        Action::UserQuit => {},
    }
}

/// One iteration of the game loop's decisions, applied for one received
/// intent.
///
/// A quit intent stops the loop at once: the board and the piece are left
/// untouched and `stop` is returned true. Any other intent moves the piece
/// one step if the board permits it (an impossible move is silently
/// discarded); if the piece has then landed, it is frozen, complete rows
/// are cleared, and a fresh piece is spawned at random.
pub fn handle_intent(
    board: &mut Vec<Vec<u8>>,
    falling_cells_coords: &mut Vec<(usize, usize)>,
    action: &Action,
) -> (stop: bool)
    requires
        board_wf(grid(old(board)@)),
        piece_in_bounds(old(falling_cells_coords)@),
    ensures
        stop == (*action is UserQuit),
        stop ==> final(board)@ == old(board)@ && final(falling_cells_coords)@ == old(
            falling_cells_coords,
        )@,
        !stop ==> ({
            let m = moved(grid(old(board)@), old(falling_cells_coords)@, *action);
            if landed(grid(old(board)@), m) {
                &&& grid(final(board)@) == cleared_from(
                    frozen(grid(old(board)@), m),
                    HIDDEN_ROWS as int,
                )
                &&& spawn_ok(final(falling_cells_coords)@)
                &&& exists|b: Block, c: int|
                    0 <= c && c + shape_width(b) <= COLS && final(falling_cells_coords)@
                        == spawn_seq(b, c)
                &&& (forall|i: int, j: int|
                    0 <= i < 4 && 0 <= j < COLS ==> grid(final(board)@)[i][j] == 0)
                    ==> piece_on_empty(grid(final(board)@), final(falling_cells_coords)@)
            } else {
                &&& final(board)@ == old(board)@
                &&& final(falling_cells_coords)@ == m
                &&& piece_on_empty(grid(old(board)@), old(falling_cells_coords)@)
                    ==> piece_on_empty(grid(final(board)@), final(falling_cells_coords)@)
            }
        }),
        board_wf(grid(final(board)@)),
        piece_in_bounds(final(falling_cells_coords)@),
{
    match action {
        Action::UserQuit => {
            return true;
        },
        Action::MoveLeft => {
            if can_move(board, falling_cells_coords, -1, 0) {
                shift(falling_cells_coords, -1, 0);
            }
        },
        Action::MoveRight => {
            if can_move(board, falling_cells_coords, 1, 0) {
                shift(falling_cells_coords, 1, 0);
            }
        },
        Action::MoveDown => {
            if can_move(board, falling_cells_coords, 0, 1) {
                shift(falling_cells_coords, 0, 1);
            }
        },
    }
    assert(falling_cells_coords@ == moved(
        grid(board@),
        old(falling_cells_coords)@,
        *action,
    ));
    proof {
        if piece_on_empty(grid(board@), old(falling_cells_coords)@) {
            lemma_moved_keeps_empty(grid(board@), old(falling_cells_coords)@, *action);
        }
    }
    if block_collided(board, falling_cells_coords) {
        freeze(board, falling_cells_coords);
        remove_complete_rows(board);
        let fresh = generate_block();
        *falling_cells_coords = fresh;
        proof {
            if forall|i: int, j: int| 0 <= i < 4 && 0 <= j < COLS ==> grid(board@)[i][j] == 0 {
                assert forall|k: int| 0 <= k < falling_cells_coords@.len() implies grid(
                    board@,
                )[(#[trigger] falling_cells_coords@[k]).0 as int][falling_cells_coords@[k].1 as int]
                    == 0 by {
                    assert(falling_cells_coords@[k].0 < 4 && falling_cells_coords@[k].1 < COLS);
                }
            }
        }
    }
    false
}

} // verus!
