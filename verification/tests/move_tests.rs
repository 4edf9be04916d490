use connect_four::board::{Board, Cell, Piece, COLS, ROWS};
use connect_four::move_exec::drop_piece;
use connect_four::move_gen::{is_valid_move, valid_moves};

#[test]
fn move_exec_test_drop_piece() {
    let mut board = Board::new();
    assert!(drop_piece(&mut board, 0, Piece::Player1));
    assert_eq!(board.height(0), 1);
    assert_eq!(board.cell(0, 0), Cell::Piece(Piece::Player1));
}

#[test]
fn move_exec_test_drop_piece_full_column() {
    let mut board = Board::new();
    for _ in 0..ROWS {
        assert!(drop_piece(&mut board, 0, Piece::Player1));
    }
    assert!(!drop_piece(&mut board, 0, Piece::Player1));
}

#[test]
fn test_drop_piece_stacks() {
    let mut board = Board::new();
    assert!(drop_piece(&mut board, 0, Piece::Player1));
    assert!(drop_piece(&mut board, 0, Piece::Player2));
    assert_eq!(board.height(0), 2);
    assert_eq!(board.cell(0, 0), Cell::Piece(Piece::Player1));
    assert_eq!(board.cell(1, 0), Cell::Piece(Piece::Player2));
}

#[test]
fn move_gen_test_valid_moves() {
    let board = Board::new();
    assert_eq!(valid_moves(&board).len(), COLS);
}

#[test]
fn test_invalid_col_out_of_range() {
    let board = Board::new();
    assert!(!is_valid_move(&board, COLS));
    assert!(!is_valid_move(&board, usize::MAX));
}

#[test]
fn test_column_fills_up() {
    let mut board = Board::new();
    for _ in 0..ROWS {
        assert!(drop_piece(&mut board, 0, Piece::Player1));
    }
    assert!(!is_valid_move(&board, 0));
    assert_eq!(valid_moves(&board).len(), COLS - 1);
}
