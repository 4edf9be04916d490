use vstd::prelude::*;

use crate::board::{Board, COLS};

verus! {

/// Whether a piece can be dropped into column `col` of `board`.
pub fn is_valid_move(board: &Board, col: usize) -> (valid: bool)
    ensures
        valid == board.is_open_col(col as int),
{
    board.is_valid_move(col)
}

/// The columns of `board` that accept a piece, in increasing order.
pub fn valid_moves(board: &Board) -> (moves: Vec<usize>)
    ensures
        moves@ == board.open_cols(),
        forall|c: int| 0 <= c < COLS ==> (board.is_open_col(c) <==> moves@.contains(c as usize)),
{
    board.valid_moves()
}

} // verus!
