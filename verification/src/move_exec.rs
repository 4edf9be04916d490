use vstd::prelude::*;

use crate::board::{Board, Piece};

verus! {

/// Drops `piece` into column `col` of `board`. Returns whether the move was
/// legal; an illegal move leaves the board unchanged.
pub fn drop_piece(board: &mut Board, col: usize, piece: Piece) -> (played: bool)
    ensures
        played == old(board).is_open_col(col as int),
        played ==> *final(board) == old(board).dropped(col as int, piece),
        !played ==> *final(board) == *old(board),
        played ==> final(board).is_drop_of(*old(board), col as int, piece),
{
    match board.drop_piece(col, piece) {
        Some(next) => {
            *board = next;
            true
        },
        None => false,
    }
}

} // verus!
