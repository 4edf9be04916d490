use connect_four::board::{Board, Piece};
use connect_four::move_exec::drop_piece;
use connect_four::search::{solve, SearchResult};

#[test]
fn test_one_move_horizontal_win() {
    let mut board = Board::new();
    drop_piece(&mut board, 0, Piece::Player1);
    drop_piece(&mut board, 0, Piece::Player2);
    drop_piece(&mut board, 1, Piece::Player1);
    drop_piece(&mut board, 1, Piece::Player2);
    drop_piece(&mut board, 2, Piece::Player1);
    drop_piece(&mut board, 2, Piece::Player2);
    assert_eq!(solve(&board, Piece::Player1), SearchResult::Win);
}

#[test]
fn test_one_move_vertical_win() {
    let mut board = Board::new();
    drop_piece(&mut board, 0, Piece::Player1);
    drop_piece(&mut board, 1, Piece::Player2);
    drop_piece(&mut board, 0, Piece::Player1);
    drop_piece(&mut board, 1, Piece::Player2);
    drop_piece(&mut board, 0, Piece::Player1);
    drop_piece(&mut board, 1, Piece::Player2);
    assert_eq!(solve(&board, Piece::Player1), SearchResult::Win);
}

#[test]
fn test_immediate_loss() {
    let mut board = Board::new();
    drop_piece(&mut board, 6, Piece::Player1);
    drop_piece(&mut board, 0, Piece::Player2);
    drop_piece(&mut board, 5, Piece::Player1);
    drop_piece(&mut board, 1, Piece::Player2);
    drop_piece(&mut board, 4, Piece::Player1);
    drop_piece(&mut board, 2, Piece::Player2);
    drop_piece(&mut board, 6, Piece::Player1);
    drop_piece(&mut board, 3, Piece::Player2);
    assert_eq!(solve(&board, Piece::Player1), SearchResult::Loss);
}
