use connect_four::board::{Board, Cell, Piece, COLS, ROWS};

#[test]
fn test_new_board_empty() {
    let board = Board::new();
    assert!(!board.is_full());
    assert!(!board.is_terminal());
    assert_eq!(board.move_count(), 0);
    for col in 0..COLS {
        assert_eq!(board.height(col), 0);
        assert!(board.is_valid_move(col));
    }
}

#[test]
fn board_test_drop_piece() {
    let board = Board::new();
    let board = board.drop_piece(0, Piece::Player1).unwrap();
    assert_eq!(board.height(0), 1);
    assert_eq!(board.cell(0, 0), Cell::Piece(Piece::Player1));
}

#[test]
fn board_test_drop_piece_full_column() {
    let mut board = Board::new();
    for _ in 0..ROWS {
        board = board.drop_piece(0, Piece::Player1).unwrap();
    }
    assert!(!board.is_valid_move(0));
    assert!(board.drop_piece(0, Piece::Player1).is_none());
}

#[test]
fn board_test_horizontal_win() {
    let mut board = Board::new();
    for col in 0..4 {
        board = board.drop_piece(col, Piece::Player1).unwrap();
        if col < 3 {
            board = board.drop_piece(col, Piece::Player2).unwrap();
        }
    }
    assert!(board.check_win(Piece::Player1));
}

#[test]
fn board_test_vertical_win() {
    let mut board = Board::new();
    for _ in 0..4 {
        board = board.drop_piece(0, Piece::Player1).unwrap();
        board = board.drop_piece(1, Piece::Player2).unwrap();
    }
    assert!(board.check_win(Piece::Player1));
}

#[test]
fn board_test_diagonal_win_up_right() {
    let mut board = Board::new();
    for col in 0..4 {
        for _ in 0..col {
            board = board.drop_piece(col, Piece::Player2).unwrap();
        }
        board = board.drop_piece(col, Piece::Player1).unwrap();
    }
    assert!(board.check_win(Piece::Player1));
}

#[test]
fn board_test_diagonal_win_down_right() {
    let mut board = Board::new();
    for col in 0..4 {
        for _ in 0..(3 - col) {
            board = board.drop_piece(col, Piece::Player2).unwrap();
        }
        board = board.drop_piece(col, Piece::Player1).unwrap();
    }
    assert!(board.check_win(Piece::Player1));
}

#[test]
fn board_test_no_win() {
    let board = Board::new();
    assert!(!board.check_win(Piece::Player1));
    assert!(!board.check_win(Piece::Player2));
}

#[test]
fn board_test_is_terminal_full() {
    let mut board = Board::new();
    for i in 0..(ROWS * COLS) {
        let col = i % COLS;
        let piece = if (i / COLS) % 2 == 0 {
            Piece::Player1
        } else {
            Piece::Player2
        };
        board = board.drop_piece(col, piece).unwrap();
    }
    assert!(board.is_full());
    assert!(board.is_terminal());
}

#[test]
fn board_test_valid_moves() {
    let board = Board::new();
    assert_eq!(board.valid_moves().len(), COLS);
}

#[test]
fn test_opponent() {
    assert_eq!(Piece::Player1.opponent(), Piece::Player2);
    assert_eq!(Piece::Player2.opponent(), Piece::Player1);
}
