use connect_four::board::{Board, Cell, Piece, COLS, ROWS};
use connect_four::eval::{check_win, is_full, is_terminal};
use connect_four::move_exec::drop_piece;
use connect_four::move_gen::{is_valid_move, valid_moves};
use connect_four::search::{solve, solve_observed, QuietObserver, SearchResult};

fn play(moves: &[(usize, Piece)]) -> Board {
    let mut board = Board::new();
    for &(col, piece) in moves {
        assert!(drop_piece(&mut board, col, piece));
    }
    board
}

fn nearly_full_drawn_board() -> Board {
    let mut board = Board::new();
    for col in 0..COLS {
        let (a, b) = if col % 2 == 0 {
            (Piece::Player1, Piece::Player2)
        } else {
            (Piece::Player2, Piece::Player1)
        };
        let column = [a, a, b, b, a, a];
        let n = if col == COLS - 1 { ROWS - 1 } else { ROWS };
        for &piece in column.iter().take(n) {
            assert!(drop_piece(&mut board, col, piece));
        }
    }
    board
}

#[test]
fn test_opponent_is_an_involution() {
    for piece in [Piece::Player1, Piece::Player2] {
        assert_ne!(piece.opponent(), piece);
        assert_eq!(piece.opponent().opponent(), piece);
    }
}

#[test]
fn test_new_board_is_empty_and_open() {
    let board = Board::new();
    for row in 0..ROWS {
        for col in 0..COLS {
            assert_eq!(board.cell(row, col), Cell::Empty);
        }
    }
    assert_eq!(board.valid_moves(), vec![0, 1, 2, 3, 4, 5, 6]);
    assert!(!is_terminal(&board));
    assert_eq!(board.cols(), 7);
    assert_eq!(board.rows(), 6);
    assert_eq!(Board::default(), board);
}

#[test]
fn test_drop_fills_lowest_empty_cell_only() {
    let before = play(&[(3, Piece::Player1), (3, Piece::Player2)]);
    let after = before.drop_piece(3, Piece::Player1).unwrap();
    assert_eq!(after.height(3), before.height(3) + 1);
    assert_eq!(after.move_count(), before.move_count() + 1);
    assert_eq!(after.cell(2, 3), Cell::Piece(Piece::Player1));
    for row in 0..ROWS {
        for col in 0..COLS {
            if (row, col) != (2, 3) {
                assert_eq!(after.cell(row, col), before.cell(row, col));
            }
        }
    }
    for col in 0..COLS {
        if col != 3 {
            assert_eq!(after.height(col), before.height(col));
        }
    }
}

#[test]
fn test_illegal_drop_leaves_board_unchanged() {
    let mut board = play(&[(0, Piece::Player1)]);
    let before = board;
    assert!(!drop_piece(&mut board, COLS, Piece::Player2));
    assert!(!drop_piece(&mut board, usize::MAX, Piece::Player2));
    assert_eq!(board, before);
    assert!(before.drop_piece(COLS, Piece::Player2).is_none());
}

#[test]
fn test_valid_moves_skip_full_columns_in_order() {
    let mut board = Board::new();
    for _ in 0..ROWS {
        assert!(drop_piece(&mut board, 3, Piece::Player1));
    }
    assert_eq!(valid_moves(&board), vec![0, 1, 2, 4, 5, 6]);
    assert!(!is_valid_move(&board, 3));
}

#[test]
fn test_move_count_is_number_of_pieces() {
    let board = play(&[(0, Piece::Player1), (6, Piece::Player2), (0, Piece::Player1), (5, Piece::Player2)]);
    let total: usize = (0..COLS).map(|c| board.height(c)).sum();
    assert_eq!(board.move_count() as usize, total);
    assert_eq!(board.move_count(), 4);
}

#[test]
fn test_full_board_has_no_open_column() {
    let mut board = Board::new();
    for i in 0..(ROWS * COLS) {
        let piece = if (i / COLS) % 2 == 0 { Piece::Player1 } else { Piece::Player2 };
        assert!(drop_piece(&mut board, i % COLS, piece));
    }
    assert!(is_full(&board));
    assert!(valid_moves(&board).is_empty());
}

#[test]
fn test_win_on_anti_diagonal_only() {
    // Player2 on (0,6), (1,5), (2,4), (3,3).
    let board = play(&[
        (6, Piece::Player2),
        (5, Piece::Player1),
        (5, Piece::Player2),
        (4, Piece::Player1),
        (4, Piece::Player1),
        (4, Piece::Player2),
        (3, Piece::Player1),
        (3, Piece::Player1),
        (3, Piece::Player1),
        (3, Piece::Player2),
    ]);
    assert!(check_win(&board, Piece::Player2));
    assert!(!check_win(&board, Piece::Player1));
}

#[test]
fn test_render_exact() {
    let board = play(&[(0, Piece::Player1), (1, Piece::Player2), (0, Piece::Player1)]);
    let expected = String::new()
        + "|             |\n"
        + "|             |\n"
        + "|             |\n"
        + "|             |\n"
        + "|X            |\n"
        + "|X O          |\n"
        + "+-------------+\n"
        + " 1 2 3 4 5 6 7\n";
    assert_eq!(board.render(), expected);
}

#[test]
fn test_solve_existing_four_is_win() {
    let board = play(&[
        (0, Piece::Player1),
        (0, Piece::Player2),
        (1, Piece::Player1),
        (1, Piece::Player2),
        (2, Piece::Player1),
        (2, Piece::Player2),
        (3, Piece::Player1),
    ]);
    assert_eq!(solve(&board, Piece::Player1), SearchResult::Win);
    assert_eq!(solve(&board, Piece::Player2), SearchResult::Loss);
}

#[test]
fn test_solve_double_threat_is_loss_for_defender() {
    // Player1 holds (0,1), (0,2), (0,3) with both ends open; Player2 to move.
    let board = play(&[
        (1, Piece::Player1),
        (6, Piece::Player2),
        (2, Piece::Player1),
        (6, Piece::Player2),
        (3, Piece::Player1),
    ]);
    assert_eq!(solve(&board, Piece::Player2), SearchResult::Loss);
    assert_eq!(solve(&board, Piece::Player1), SearchResult::Win);
}

#[test]
fn test_solve_full_drawn_board_is_draw() {
    let mut board = nearly_full_drawn_board();
    assert!(drop_piece(&mut board, COLS - 1, Piece::Player1));
    assert!(is_full(&board));
    assert_eq!(solve(&board, Piece::Player2), SearchResult::Draw);
}

#[test]
fn test_solve_last_move_draw() {
    let board = nearly_full_drawn_board();
    assert_eq!(board.move_count(), 41);
    let mut quiet = QuietObserver;
    let report = solve_observed(&board, Piece::Player1, &mut quiet);
    assert_eq!(report.result, SearchResult::Draw);
    assert_eq!((report.node_pn, report.node_dn), (INF, INF));
    assert!(report.nodes >= 1);
}

use connect_four::numbers::INF;
use connect_four::search::df_pn;

#[test]
fn test_df_pn_or_node_first_round_on_empty_board() {
    let board = Board::new();
    let mut nodes: u64 = 0;
    let mut pv: Vec<usize> = Vec::new();
    let mut quiet = QuietObserver;
    let res = df_pn(&board, Piece::Player1, true, 1, 1, &mut nodes, &mut quiet, &mut pv, 0);
    assert_eq!(res, (None, 1, 7));
    assert_eq!(nodes, 1);
    assert!(pv.is_empty());
}

#[test]
fn test_df_pn_and_node_first_round_on_empty_board() {
    let board = Board::new();
    let mut nodes: u64 = 0;
    let mut pv: Vec<usize> = Vec::new();
    let mut quiet = QuietObserver;
    let res = df_pn(&board, Piece::Player1, false, 1, 1, &mut nodes, &mut quiet, &mut pv, 0);
    assert_eq!(res, (None, 7, 1));
    assert_eq!(nodes, 1);
}

#[test]
fn test_df_pn_terminal_answers() {
    let lost = play(&[
        (6, Piece::Player1),
        (0, Piece::Player2),
        (5, Piece::Player1),
        (1, Piece::Player2),
        (4, Piece::Player1),
        (2, Piece::Player2),
        (6, Piece::Player1),
        (3, Piece::Player2),
    ]);
    let mut nodes: u64 = 5;
    let mut pv: Vec<usize> = vec![2];
    let mut quiet = QuietObserver;
    let res = df_pn(&lost, Piece::Player1, true, 1, 1, &mut nodes, &mut quiet, &mut pv, 0);
    assert_eq!(res, (Some(SearchResult::Loss), INF, 0));
    assert_eq!(nodes, 6);
    assert_eq!(pv, vec![2]);
    let res = df_pn(&lost, Piece::Player2, false, 1, 1, &mut nodes, &mut quiet, &mut pv, 0);
    assert_eq!(res, (Some(SearchResult::Win), 0, INF));

    let mut full = nearly_full_drawn_board();
    assert!(drop_piece(&mut full, COLS - 1, Piece::Player1));
    let res = df_pn(&full, Piece::Player1, true, 4, 4, &mut nodes, &mut quiet, &mut pv, 0);
    assert_eq!(res, (Some(SearchResult::Draw), INF, INF));
}

#[test]
fn test_df_pn_finds_one_move_win() {
    let board = play(&[
        (0, Piece::Player1),
        (0, Piece::Player2),
        (1, Piece::Player1),
        (1, Piece::Player2),
        (2, Piece::Player1),
        (2, Piece::Player2),
    ]);
    let mut nodes: u64 = 0;
    let mut pv: Vec<usize> = Vec::new();
    let mut quiet = QuietObserver;
    let mut pn_limit = 1;
    let mut result = None;
    while result.is_none() {
        let res = df_pn(&board, Piece::Player1, true, pn_limit, pn_limit, &mut nodes, &mut quiet, &mut pv, 0);
        result = res.0;
        pn_limit *= 2;
    }
    assert_eq!(result, Some(SearchResult::Win));
    assert!(nodes > 1);
}

fn mirror_moves(moves: &[(usize, Piece)]) -> Vec<(usize, Piece)> {
    moves.iter().map(|&(c, p)| (COLS - 1 - c, p)).collect()
}

fn mirror_board(board: &Board) -> Board {
    let mut mirrored = Board::new();
    for row in 0..ROWS {
        for col in 0..COLS {
            if let Cell::Piece(piece) = board.cell(row, COLS - 1 - col) {
                assert!(drop_piece(&mut mirrored, col, piece));
            }
        }
    }
    mirrored
}

#[test]
fn test_mirrored_positions_have_the_same_value() {
    let won = play(&[
        (6, Piece::Player1),
        (0, Piece::Player2),
        (5, Piece::Player1),
        (1, Piece::Player2),
        (4, Piece::Player1),
        (2, Piece::Player2),
        (6, Piece::Player1),
        (3, Piece::Player2),
    ]);
    let drawn = nearly_full_drawn_board();
    for board in [won, drawn] {
        let mirrored = mirror_board(&board);
        assert_eq!(mirrored, play(&mirror_moves_of(&board)));
        for row in 0..ROWS {
            for col in 0..COLS {
                assert_eq!(mirrored.cell(row, col), board.cell(row, COLS - 1 - col));
            }
        }
        for player in [Piece::Player1, Piece::Player2] {
            assert_eq!(solve(&mirrored, player), solve(&board, player));
        }
    }
}

fn mirror_moves_of(board: &Board) -> Vec<(usize, Piece)> {
    let mut moves = Vec::new();
    for row in 0..ROWS {
        for col in 0..COLS {
            if let Cell::Piece(piece) = board.cell(row, col) {
                moves.push((col, piece));
            }
        }
    }
    mirror_moves(&moves)
}

#[test]
fn test_drops_into_different_columns_commute() {
    let base = play(&[(3, Piece::Player1), (4, Piece::Player2)]);
    let a = base.drop_piece(2, Piece::Player1).unwrap().drop_piece(5, Piece::Player2).unwrap();
    let b = base.drop_piece(5, Piece::Player2).unwrap().drop_piece(2, Piece::Player1).unwrap();
    assert_eq!(a, b);
}

#[test]
fn test_move_count_is_number_of_accepted_drops() {
    let mut board = Board::new();
    let mut accepted: u32 = 0;
    let tries = [0, 0, 0, 0, 0, 0, 0, 0, 7, 3, 3, usize::MAX, 6];
    for (i, &col) in tries.iter().enumerate() {
        let piece = if i % 2 == 0 { Piece::Player1 } else { Piece::Player2 };
        if drop_piece(&mut board, col, piece) {
            accepted += 1;
        }
    }
    assert_eq!(accepted, 9);
    assert_eq!(board.move_count(), accepted);
}

#[test]
fn test_solve_report_on_position_already_lost() {
    let board = play(&[
        (6, Piece::Player1),
        (0, Piece::Player2),
        (5, Piece::Player1),
        (1, Piece::Player2),
        (4, Piece::Player1),
        (2, Piece::Player2),
        (6, Piece::Player1),
        (3, Piece::Player2),
    ]);
    let mut quiet = QuietObserver;
    let report = solve_observed(&board, Piece::Player1, &mut quiet);
    assert_eq!(report.result, SearchResult::Loss);
    assert_eq!(report.nodes, 1);
    assert_eq!((report.node_pn, report.node_dn), (INF, 0));
}

#[test]
fn test_df_pn_settled_position_with_inf_thresholds_and_any_depth() {
    let lost = play(&[
        (6, Piece::Player1),
        (0, Piece::Player2),
        (5, Piece::Player1),
        (1, Piece::Player2),
        (4, Piece::Player1),
        (2, Piece::Player2),
        (6, Piece::Player1),
        (3, Piece::Player2),
    ]);
    let mut nodes: u64 = 0;
    let mut pv: Vec<usize> = Vec::new();
    let mut quiet = QuietObserver;
    let res = df_pn(&lost, Piece::Player1, true, INF, INF, &mut nodes, &mut quiet, &mut pv, usize::MAX);
    assert_eq!(res, (Some(SearchResult::Loss), INF, 0));
    assert_eq!(nodes, 1);
}

#[test]
fn test_df_pn_large_depth_label() {
    let board = Board::new();
    let mut nodes: u64 = 0;
    let mut pv: Vec<usize> = Vec::new();
    let mut quiet = QuietObserver;
    let res = df_pn(&board, Piece::Player1, true, 8, 8, &mut nodes, &mut quiet, &mut pv, usize::MAX);
    let mut nodes2: u64 = 0;
    let res2 = df_pn(&board, Piece::Player1, true, 8, 8, &mut nodes2, &mut quiet, &mut pv, 0);
    assert_eq!(res, res2);
    assert_eq!(nodes, nodes2);
    assert!(nodes > 1);
}

#[test]
fn test_solve_report_rounds() {
    let board = play(&[
        (0, Piece::Player1),
        (0, Piece::Player2),
        (1, Piece::Player1),
        (1, Piece::Player2),
        (2, Piece::Player1),
        (2, Piece::Player2),
    ]);
    let mut quiet = QuietObserver;
    let report = solve_observed(&board, Piece::Player1, &mut quiet);
    assert_eq!(report.result, SearchResult::Win);
    assert_eq!((report.node_pn, report.node_dn), (0, INF));
    assert!(!report.rounds.is_empty());
    let mut last = 0;
    for &(nodes, pn, dn) in report.rounds.iter() {
        assert!(nodes > last);
        assert!(pn > 0 && dn > 0);
        last = nodes;
    }
    assert!(report.nodes > last);
}
