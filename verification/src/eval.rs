use vstd::prelude::*;

use crate::board::{on_grid, Board, Cell, Piece, CELLS, COLS, ROWS};

verus! {

/// Row step of the `d`-th line direction: right, up, up-right, down-right.
pub open spec fn dir_row(d: int) -> int {
    if d == 0 {
        0
    } else {
        1
    }
}

/// Column step of the `d`-th line direction: right, up, up-right, down-right.
pub open spec fn dir_col(d: int) -> int {
    if d == 0 {
        1
    } else if d == 1 {
        0
    } else if d == 2 {
        1
    } else {
        -1
    }
}

/// Cell `(r, c)` lies on the grid and holds a piece of `piece`.
pub open spec fn owns(b: Board, piece: Piece, r: int, c: int) -> bool {
    on_grid(r, c) && b.cell_at(r, c) == Cell::Piece(piece)
}

/// The `j`-th cell of the line from `(r, c)` with step `(dr, dc)` holds `piece`.
pub open spec fn owns_step(b: Board, piece: Piece, r: int, c: int, dr: int, dc: int, j: int) -> bool {
    owns(b, piece, r + j * dr, c + j * dc)
}

/// Four cells in a line, starting at `(r, c)` with step `(dr, dc)`, all hold `piece`.
pub open spec fn four_from(b: Board, piece: Piece, r: int, c: int, dr: int, dc: int) -> bool {
    &&& owns(b, piece, r, c)
    &&& owns(b, piece, r + dr, c + dc)
    &&& owns(b, piece, r + 2 * dr, c + 2 * dc)
    &&& owns(b, piece, r + 3 * dr, c + 3 * dc)
}

/// `piece` has four in a row: horizontally, vertically or diagonally.
#[verifier::opaque]
pub open spec fn has_four(b: Board, piece: Piece) -> bool {
    exists|r: int, c: int, d: int|
        0 <= d < 4 && #[trigger] four_from(b, piece, r, c, dir_row(d), dir_col(d))
}

/// Every cell holds a piece.
pub open spec fn board_full(b: Board) -> bool {
    b.count() == CELLS
}

/// The game is over: the grid is full or a player has four in a row.
pub open spec fn game_over(b: Board) -> bool {
    board_full(b) || has_four(b, Piece::Player1) || has_four(b, Piece::Player2)
}

/// On an empty grid nobody has four in a row, the game is not over and
/// every column accepts a piece.
pub proof fn lemma_empty_board_not_over(b: Board)
    requires
        b.is_empty_board(),
    ensures
        !has_four(b, Piece::Player1),
        !has_four(b, Piece::Player2),
        !game_over(b),
        forall|c: int| 0 <= c < COLS ==> #[trigger] b.is_open_col(c),
{
    reveal(has_four);
    assert forall|c: int| 0 <= c < COLS implies #[trigger] b.is_open_col(c) by {
        assert(b.height_of(c) == 0);
    }
    assert forall|r: int, c: int, d: int| 0 <= d < 4 implies !#[trigger] four_from(
        b,
        Piece::Player1,
        r,
        c,
        dir_row(d),
        dir_col(d),
    ) by {
        if on_grid(r, c) {
            assert(b.cell_at(r, c) == Cell::Empty);
        }
    }
    assert forall|r: int, c: int, d: int| 0 <= d < 4 implies !#[trigger] four_from(
        b,
        Piece::Player2,
        r,
        c,
        dir_row(d),
        dir_col(d),
    ) by {
        if on_grid(r, c) {
            assert(b.cell_at(r, c) == Cell::Empty);
        }
    }
}

/// Reflecting the grid left to right keeps every four in a row: a
/// horizontal or vertical line stays one, and the two diagonal directions
/// trade places.
pub proof fn lemma_mirror_four(m: Board, b: Board, piece: Piece)
    requires
        m.is_mirror_of(b),
    ensures
        has_four(m, piece) == has_four(b, piece),
{
    reveal(has_four);
    m.lemma_mirror_symmetric(b);
    lemma_mirror_four_one_way(m, b, piece);
    lemma_mirror_four_one_way(b, m, piece);
}

proof fn lemma_mirror_four_one_way(m: Board, b: Board, piece: Piece)
    requires
        m.is_mirror_of(b),
    ensures
        has_four(b, piece) ==> has_four(m, piece),
{
    reveal(has_four);
    if has_four(b, piece) {
        let (r, c, d) = choose|r: int, c: int, d: int|
            0 <= d < 4 && #[trigger] four_from(b, piece, r, c, dir_row(d), dir_col(d));
        let last = COLS - 1;
        assert(on_grid(r, c));
        if d == 0 {
            assert(four_from(m, piece, r, last - c - 3, dir_row(0), dir_col(0))) by {
                assert(m.cell_at(r, last - c - 3) == b.cell_at(r, c + 3));
                assert(m.cell_at(r, last - c - 2) == b.cell_at(r, c + 2));
                assert(m.cell_at(r, last - c - 1) == b.cell_at(r, c + 1));
                assert(m.cell_at(r, last - c) == b.cell_at(r, c));
            }
        } else if d == 1 {
            assert(four_from(m, piece, r, last - c, dir_row(1), dir_col(1))) by {
                assert(m.cell_at(r, last - c) == b.cell_at(r, c));
                assert(m.cell_at(r + 1, last - c) == b.cell_at(r + 1, c));
                assert(m.cell_at(r + 2, last - c) == b.cell_at(r + 2, c));
                assert(m.cell_at(r + 3, last - c) == b.cell_at(r + 3, c));
            }
        } else if d == 2 {
            assert(four_from(m, piece, r, last - c, dir_row(3), dir_col(3))) by {
                assert(m.cell_at(r, last - c) == b.cell_at(r, c));
                assert(m.cell_at(r + 1, last - c - 1) == b.cell_at(r + 1, c + 1));
                assert(m.cell_at(r + 2, last - c - 2) == b.cell_at(r + 2, c + 2));
                assert(m.cell_at(r + 3, last - c - 3) == b.cell_at(r + 3, c + 3));
            }
        } else {
            assert(four_from(m, piece, r, last - c, dir_row(2), dir_col(2))) by {
                assert(m.cell_at(r, last - c) == b.cell_at(r, c));
                assert(m.cell_at(r + 1, last - c + 1) == b.cell_at(r + 1, c - 1));
                assert(m.cell_at(r + 2, last - c + 2) == b.cell_at(r + 2, c - 2));
                assert(m.cell_at(r + 3, last - c + 3) == b.cell_at(r + 3, c - 3));
            }
        }
    }
}

impl Board {
    /// Counts how many consecutive cells, starting at `(row, col)` and going
    /// in direction `(dr, dc)`, hold `piece`, stopping at four.
    fn run_length(&self, piece: Piece, row: usize, col: usize, dr: isize, dc: isize) -> (count: u32)
        requires
            row < ROWS,
            col < COLS,
            -1 <= dr <= 1,
            -1 <= dc <= 1,
            self.cell_at(row as int, col as int) == Cell::Piece(piece),
        ensures
            1 <= count <= 4,
            forall|j: int|
                0 <= j < count ==> #[trigger] owns_step(
                    *self,
                    piece,
                    row as int,
                    col as int,
                    dr as int,
                    dc as int,
                    j,
                ),
            count < 4 ==> !owns_step(*self, piece, row as int, col as int, dr as int, dc as int, count as int),
    {
        let mut count: u32 = 1;
        let mut step: isize = 1;
        assert(owns_step(*self, piece, row as int, col as int, dr as int, dc as int, 0));
        while step < 4
            invariant
                1 <= step <= 4,
                count == step,
                row < ROWS,
                col < COLS,
                -1 <= dr <= 1,
                -1 <= dc <= 1,
                forall|j: int|
                    0 <= j < step ==> #[trigger] owns_step(
                        *self,
                        piece,
                        row as int,
                        col as int,
                        dr as int,
                        dc as int,
                        j,
                    ),
            ensures
                1 <= count <= 4,
                forall|j: int|
                    0 <= j < count ==> #[trigger] owns_step(
                        *self,
                        piece,
                        row as int,
                        col as int,
                        dr as int,
                        dc as int,
                        j,
                    ),
                count < 4 ==> !owns_step(*self, piece, row as int, col as int, dr as int, dc as int, count as int),
            decreases 4 - step,
        {
            assert(-3 <= dr * step <= 3 && -3 <= dc * step <= 3) by (nonlinear_arith)
                requires
                    -1 <= dr <= 1,
                    -1 <= dc <= 1,
                    1 <= step <= 3,
            ;
            let r = row as isize + dr * step;
            let c = col as isize + dc * step;
            assert(r == row as int + step * dr && c == col as int + step * dc) by (nonlinear_arith)
                requires
                    r == row as int + dr * step,
                    c == col as int + dc * step,
            ;
            if r < 0 || r >= ROWS as isize || c < 0 || c >= COLS as isize {
                break;
            }
            if self.cell(r as usize, c as usize) != Cell::Piece(piece) {
                break;
            }
            count += 1;
            step += 1;
        }
        count
    }

    /// Whether `piece` has four in a row anywhere on the grid.
    pub fn check_win(&self, piece: Piece) -> (won: bool)
        ensures
            won == has_four(*self, piece),
    {
        let directions: [(isize, isize); 4] = [(0, 1), (1, 0), (1, 1), (1, -1)];
        let mut row: usize = 0;
        while row < ROWS
            invariant
                row <= ROWS,
                directions@ == seq![(0isize, 1isize), (1isize, 0isize), (1isize, 1isize), (1isize, -1isize)],
                forall|r: int, c: int, d: int|
                    0 <= r < row && 0 <= d < 4 ==> !#[trigger] four_from(
                        *self,
                        piece,
                        r,
                        c,
                        dir_row(d),
                        dir_col(d),
                    ),
            decreases ROWS - row,
        {
            let mut col: usize = 0;
            while col < COLS
                invariant
                    row < ROWS,
                    col <= COLS,
                    directions@ == seq![(0isize, 1isize), (1isize, 0isize), (1isize, 1isize), (1isize, -1isize)],
                    forall|r: int, c: int, d: int|
                        (0 <= r < row || (r == row && c < col)) && 0 <= d < 4 ==> !#[trigger] four_from(
                            *self,
                            piece,
                            r,
                            c,
                            dir_row(d),
                            dir_col(d),
                        ),
                decreases COLS - col,
            {
                if self.cell(row, col) == Cell::Piece(piece) {
                    let mut k: usize = 0;
                    while k < 4
                        invariant
                            row < ROWS,
                            col < COLS,
                            k <= 4,
                            self.cell_at(row as int, col as int) == Cell::Piece(piece),
                            directions@ == seq![(0isize, 1isize), (1isize, 0isize), (1isize, 1isize), (1isize, -1isize)],
                            forall|d: int|
                                0 <= d < k ==> !#[trigger] four_from(
                                    *self,
                                    piece,
                                    row as int,
                                    col as int,
                                    dir_row(d),
                                    dir_col(d),
                                ),
                        decreases 4 - k,
                    {
                        let (dr, dc) = directions[k];
                        assert(dr == dir_row(k as int) && dc == dir_col(k as int));
                        let count = self.run_length(piece, row, col, dr, dc);
                        let ghost (gr, gc, gdr, gdc) = (row as int, col as int, dr as int, dc as int);
                        assert(owns_step(*self, piece, gr, gc, gdr, gdc, 1) == owns(*self, piece, gr + gdr, gc + gdc));
                        assert(owns_step(*self, piece, gr, gc, gdr, gdc, 2) == owns(*self, piece, gr + 2 * gdr, gc + 2 * gdc));
                        assert(owns_step(*self, piece, gr, gc, gdr, gdc, 3) == owns(*self, piece, gr + 3 * gdr, gc + 3 * gdc));
                        assert(owns_step(*self, piece, gr, gc, gdr, gdc, 0) == owns(*self, piece, gr, gc));
                        if count == 4 {
                            assert(four_from(*self, piece, gr, gc, dir_row(k as int), dir_col(k as int)));
                            assert(has_four(*self, piece)) by {
                                reveal(has_four);
                            }
                            return true;
                        }
                        k += 1;
                    }
                } else {
                    assert forall|d: int| 0 <= d < 4 implies !#[trigger] four_from(
                        *self,
                        piece,
                        row as int,
                        col as int,
                        dir_row(d),
                        dir_col(d),
                    ) by {}
                }
                col += 1;
            }
            row += 1;
        }
        assert(!has_four(*self, piece)) by {
            reveal(has_four);
            if has_four(*self, piece) {
                let (r, c, d) = choose|r: int, c: int, d: int|
                    0 <= d < 4 && #[trigger] four_from(*self, piece, r, c, dir_row(d), dir_col(d));
                assert(on_grid(r, c));
            }
        }
        false
    }

    /// Whether every cell holds a piece.
    pub fn is_full(&self) -> (full: bool)
        ensures
            full == board_full(*self),
            full <==> forall|c: int| 0 <= c < COLS ==> !#[trigger] self.is_open_col(c),
    {
        proof {
            use_type_invariant(self);
            self.lemma_wf_facts();
        }
        self.move_count() as usize == ROWS * COLS
    }

    /// Whether the game is over.
    pub fn is_terminal(&self) -> (over: bool)
        ensures
            over == game_over(*self),
    {
        self.is_full() || self.check_win(Piece::Player1) || self.check_win(Piece::Player2)
    }
}

/// Whether `piece` has four in a row on `board`.
pub fn check_win(board: &Board, piece: Piece) -> (won: bool)
    ensures
        won == has_four(*board, piece),
{
    board.check_win(piece)
}

/// Whether every cell of `board` holds a piece.
pub fn is_full(board: &Board) -> (full: bool)
    ensures
        full == board_full(*board),
        full <==> forall|c: int| 0 <= c < COLS ==> !#[trigger] board.is_open_col(c),
{
    board.is_full()
}

/// Whether the game on `board` is over.
pub fn is_terminal(board: &Board) -> (over: bool)
    ensures
        over == game_over(*board),
{
    board.is_terminal()
}

} // verus!
