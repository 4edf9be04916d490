use connect_four::board::{Board, Piece, COLS, ROWS};
use connect_four::move_exec::drop_piece;

#[test]
fn eval_test_no_win() {
    let board = Board::new();
    assert!(!board.check_win(Piece::Player1));
    assert!(!board.check_win(Piece::Player2));
}

#[test]
fn eval_test_horizontal_win() {
    let mut board = Board::new();
    for col in 0..4 {
        drop_piece(&mut board, col, Piece::Player1);
        if col < 3 {
            drop_piece(&mut board, col, Piece::Player2);
        }
    }
    assert!(board.check_win(Piece::Player1));
    assert!(!board.check_win(Piece::Player2));
}

#[test]
fn eval_test_vertical_win() {
    let mut board = Board::new();
    drop_piece(&mut board, 0, Piece::Player1);
    drop_piece(&mut board, 1, Piece::Player2);
    drop_piece(&mut board, 0, Piece::Player1);
    drop_piece(&mut board, 1, Piece::Player2);
    drop_piece(&mut board, 0, Piece::Player1);
    drop_piece(&mut board, 2, Piece::Player2);
    drop_piece(&mut board, 0, Piece::Player1);
    assert!(board.check_win(Piece::Player1));
    assert!(!board.check_win(Piece::Player2));
}

#[test]
fn eval_test_diagonal_win_up_right() {
    let mut board = Board::new();
    for col in 0..4 {
        for _ in 0..col {
            drop_piece(&mut board, col, Piece::Player2);
        }
        drop_piece(&mut board, col, Piece::Player1);
    }
    assert!(board.check_win(Piece::Player1));
}

#[test]
fn eval_test_diagonal_win_down_right() {
    let mut board = Board::new();
    for col in 0..4 {
        for _ in 0..(3 - col) {
            drop_piece(&mut board, col, Piece::Player2);
        }
        drop_piece(&mut board, col, Piece::Player1);
    }
    assert!(board.check_win(Piece::Player1));
}

#[test]
fn eval_test_is_terminal_full() {
    let mut board = Board::new();
    for i in 0..(ROWS * COLS) {
        let col = i % COLS;
        let piece = if (i / COLS) % 2 == 0 {
            Piece::Player1
        } else {
            Piece::Player2
        };
        drop_piece(&mut board, col, piece);
    }
    assert!(board.is_full());
    assert!(board.is_terminal());
}

#[test]
fn test_is_terminal_on_win() {
    let mut board = Board::new();
    for col in 0..4 {
        drop_piece(&mut board, col, Piece::Player1);
        if col < 3 {
            drop_piece(&mut board, col, Piece::Player2);
        }
    }
    assert!(board.is_terminal());
}

#[test]
fn test_not_terminal_midgame() {
    let mut board = Board::new();
    drop_piece(&mut board, 0, Piece::Player1);
    drop_piece(&mut board, 1, Piece::Player2);
    assert!(!board.is_full());
    assert!(!board.is_terminal());
}
