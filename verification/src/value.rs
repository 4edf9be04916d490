use vstd::prelude::*;

use crate::board::{Board, Piece, CELLS, COLS};
use crate::eval::{check_win, has_four, is_full, lemma_mirror_four};
use crate::move_exec::drop_piece;
use crate::move_gen::valid_moves;
use crate::search::SearchResult;

verus! {

broadcast use crate::board::lemma_dropped_count;

/// The player to move: the prover at an OR node, its opponent at an AND node.
pub open spec fn mover(prover: Piece, is_or: bool) -> Piece {
    if is_or {
        prover
    } else {
        prover.other()
    }
}

/// `prover` can force four in a row from `b`, whoever moves (`is_or`: the
/// prover moves) and whatever the other side does.
pub open spec fn prover_wins(b: Board, prover: Piece, is_or: bool) -> bool
    decreases CELLS - b.count(),
{
    if has_four(b, prover) {
        true
    } else if has_four(b, prover.other()) {
        false
    } else if b.count() >= CELLS {
        false
    } else if is_or {
        exists|c: int| b.is_open_col(c) && prover_wins(#[trigger] b.dropped(c, prover), prover, false)
    } else {
        forall|c: int|
            b.is_open_col(c) ==> prover_wins(#[trigger] b.dropped(c, prover.other()), prover, true)
    }
}

/// The opponent of `prover` can force four in a row from `b`.
pub open spec fn prover_loses(b: Board, prover: Piece, is_or: bool) -> bool
    decreases CELLS - b.count(),
{
    if has_four(b, prover) {
        false
    } else if has_four(b, prover.other()) {
        true
    } else if b.count() >= CELLS {
        false
    } else if is_or {
        forall|c: int| b.is_open_col(c) ==> prover_loses(#[trigger] b.dropped(c, prover), prover, false)
    } else {
        exists|c: int|
            b.is_open_col(c) && prover_loses(#[trigger] b.dropped(c, prover.other()), prover, true)
    }
}

/// The game-theoretic value of `b` for `prover` under perfect play.
pub open spec fn game_value(b: Board, prover: Piece, is_or: bool) -> SearchResult {
    if prover_wins(b, prover, is_or) {
        SearchResult::Win
    } else if prover_loses(b, prover, is_or) {
        SearchResult::Loss
    } else {
        SearchResult::Draw
    }
}

/// At an OR node that is not over, a winning child makes the node winning.
pub proof fn lemma_or_win_from_child(b: Board, prover: Piece, c: int)
    requires
        !has_four(b, prover),
        !has_four(b, prover.other()),
        b.count() < CELLS,
        b.is_open_col(c),
        prover_wins(b.dropped(c, prover), prover, false),
    ensures
        prover_wins(b, prover, true),
{
    assert(exists|c: int|
        b.is_open_col(c) && prover_wins(#[trigger] b.dropped(c, prover), prover, false));
}

/// At an OR node that is not over and that is lost, every child is lost.
pub proof fn lemma_or_loss_to_child(b: Board, prover: Piece, c: int)
    requires
        !has_four(b, prover),
        !has_four(b, prover.other()),
        b.count() < CELLS,
        b.is_open_col(c),
        prover_loses(b, prover, true),
    ensures
        prover_loses(b.dropped(c, prover), prover, false),
{
}

/// At an AND node that is not over and that is won, every child is won.
pub proof fn lemma_and_win_to_child(b: Board, prover: Piece, c: int)
    requires
        !has_four(b, prover),
        !has_four(b, prover.other()),
        b.count() < CELLS,
        b.is_open_col(c),
        prover_wins(b, prover, false),
    ensures
        prover_wins(b.dropped(c, prover.other()), prover, true),
{
}

/// At an AND node that is not over, a lost child makes the node lost.
pub proof fn lemma_and_loss_from_child(b: Board, prover: Piece, c: int)
    requires
        !has_four(b, prover),
        !has_four(b, prover.other()),
        b.count() < CELLS,
        b.is_open_col(c),
        prover_loses(b.dropped(c, prover.other()), prover, true),
    ensures
        prover_loses(b, prover, false),
{
    assert(exists|c: int|
        b.is_open_col(c) && prover_loses(#[trigger] b.dropped(c, prover.other()), prover, true));
}

/// No position is both a forced win and a forced loss for the prover.
pub proof fn lemma_win_loss_exclusive(b: Board, prover: Piece, is_or: bool)
    ensures
        !(prover_wins(b, prover, is_or) && prover_loses(b, prover, is_or)),
    decreases CELLS - b.count(),
{
    if !has_four(b, prover) && !has_four(b, prover.other()) && b.count() < CELLS {
        if is_or {
            if prover_wins(b, prover, true) {
                let c = choose|c: int|
                    b.is_open_col(c) && prover_wins(#[trigger] b.dropped(c, prover), prover, false);
                lemma_win_loss_exclusive(b.dropped(c, prover), prover, false);
                if prover_loses(b, prover, true) {
                    lemma_or_loss_to_child(b, prover, c);
                }
            }
        } else {
            if prover_loses(b, prover, false) {
                let c = choose|c: int|
                    b.is_open_col(c) && prover_loses(#[trigger] b.dropped(c, prover.other()), prover, true);
                lemma_win_loss_exclusive(b.dropped(c, prover.other()), prover, true);
                if prover_wins(b, prover, false) {
                    lemma_and_win_to_child(b, prover, c);
                }
            }
        }
    }
}

/// At an AND node that is not over, the node is won when every child is won.
pub proof fn lemma_and_win_from_children(b: Board, prover: Piece)
    requires
        !has_four(b, prover),
        !has_four(b, prover.other()),
        b.count() < CELLS,
        forall|c: int| #[trigger]
            b.is_open_col(c) ==> prover_wins(b.dropped(c, prover.other()), prover, true),
    ensures
        prover_wins(b, prover, false),
{
    assert(forall|c: int|
        b.is_open_col(c) ==> prover_wins(#[trigger] b.dropped(c, prover.other()), prover, true));
}

/// At an OR node that is not over, the node is lost when every child is lost.
pub proof fn lemma_or_loss_from_children(b: Board, prover: Piece)
    requires
        !has_four(b, prover),
        !has_four(b, prover.other()),
        b.count() < CELLS,
        forall|c: int| #[trigger] b.is_open_col(c) ==> prover_loses(b.dropped(c, prover), prover, false),
    ensures
        prover_loses(b, prover, true),
{
    assert(forall|c: int|
        b.is_open_col(c) ==> prover_loses(#[trigger] b.dropped(c, prover), prover, false));
}

/// At an OR node that is not over and that is won, some child is won.
pub proof fn lemma_or_win_to_some_child(b: Board, prover: Piece)
    requires
        !has_four(b, prover),
        !has_four(b, prover.other()),
        b.count() < CELLS,
        prover_wins(b, prover, true),
    ensures
        exists|c: int| b.is_open_col(c) && prover_wins(#[trigger] b.dropped(c, prover), prover, false),
{
}

/// At an AND node that is not over and that is lost, some child is lost.
pub proof fn lemma_and_loss_to_some_child(b: Board, prover: Piece)
    requires
        !has_four(b, prover),
        !has_four(b, prover.other()),
        b.count() < CELLS,
        prover_loses(b, prover, false),
    ensures
        exists|c: int|
            b.is_open_col(c) && prover_loses(#[trigger] b.dropped(c, prover.other()), prover, true),
{
}

/// Reflecting a position left to right keeps its value: the same side can
/// force a win, and the same side can force a loss.
pub proof fn lemma_mirror_game_value(m: Board, b: Board, prover: Piece, is_or: bool)
    requires
        m.wf(),
        b.wf(),
        m.is_mirror_of(b),
    ensures
        prover_wins(m, prover, is_or) == prover_wins(b, prover, is_or),
        prover_loses(m, prover, is_or) == prover_loses(b, prover, is_or),
        game_value(m, prover, is_or) == game_value(b, prover, is_or),
{
    m.lemma_mirror_symmetric(b);
    lemma_mirror_values_one_way(m, b, prover, is_or);
    lemma_mirror_values_one_way(b, m, prover, is_or);
}

proof fn lemma_mirror_values_one_way(m: Board, b: Board, prover: Piece, is_or: bool)
    requires
        m.wf(),
        b.wf(),
        m.is_mirror_of(b),
    ensures
        prover_wins(b, prover, is_or) ==> prover_wins(m, prover, is_or),
        prover_loses(b, prover, is_or) ==> prover_loses(m, prover, is_or),
    decreases CELLS - b.count(),
{
    lemma_mirror_four(m, b, prover);
    lemma_mirror_four(m, b, prover.other());
    if !has_four(b, prover) && !has_four(b, prover.other()) && b.count() < CELLS {
        let last = COLS - 1;
        if is_or {
            if prover_wins(b, prover, true) {
                lemma_or_win_to_some_child(b, prover);
                let c = choose|c: int|
                    b.is_open_col(c) && prover_wins(#[trigger] b.dropped(c, prover), prover, false);
                m.lemma_mirror_dropped(b, c, prover);
                b.lemma_dropped(c, prover);
                lemma_mirror_values_one_way(m.dropped(last - c, prover), b.dropped(c, prover), prover, false);
                lemma_or_win_from_child(m, prover, last - c);
            }
            if prover_loses(b, prover, true) {
                assert forall|k: int| #[trigger] m.is_open_col(k) implies prover_loses(
                    m.dropped(k, prover),
                    prover,
                    false,
                ) by {
                    let c = last - k;
                    assert(m.height_of(k) == b.height_of(c));
                    m.lemma_mirror_dropped(b, c, prover);
                    b.lemma_dropped(c, prover);
                    lemma_or_loss_to_child(b, prover, c);
                    lemma_mirror_values_one_way(m.dropped(k, prover), b.dropped(c, prover), prover, false);
                }
                lemma_or_loss_from_children(m, prover);
            }
        } else {
            if prover_wins(b, prover, false) {
                assert forall|k: int| #[trigger] m.is_open_col(k) implies prover_wins(
                    m.dropped(k, prover.other()),
                    prover,
                    true,
                ) by {
                    let c = last - k;
                    assert(m.height_of(k) == b.height_of(c));
                    m.lemma_mirror_dropped(b, c, prover.other());
                    b.lemma_dropped(c, prover.other());
                    lemma_and_win_to_child(b, prover, c);
                    lemma_mirror_values_one_way(
                        m.dropped(k, prover.other()),
                        b.dropped(c, prover.other()),
                        prover,
                        true,
                    );
                }
                lemma_and_win_from_children(m, prover);
            }
            if prover_loses(b, prover, false) {
                lemma_and_loss_to_some_child(b, prover);
                let c = choose|c: int|
                    b.is_open_col(c) && prover_loses(#[trigger] b.dropped(c, prover.other()), prover, true);
                m.lemma_mirror_dropped(b, c, prover.other());
                b.lemma_dropped(c, prover.other());
                lemma_mirror_values_one_way(
                    m.dropped(last - c, prover.other()),
                    b.dropped(c, prover.other()),
                    prover,
                    true,
                );
                lemma_and_loss_from_child(m, prover, last - c);
            }
        }
    }
}

/// The child of `b` reached by the `i`-th listed move of `player`.
pub open spec fn child(b: Board, moves: Seq<usize>, i: int, player: Piece) -> Board {
    b.dropped(moves[i] as int, player)
}

/// Exhaustive minimax: the game value of `board`, computed by trying every
/// line of play to the end.
pub(crate) fn minimax(board: &Board, prover: Piece, is_or: bool) -> (value: SearchResult)
    ensures
        value == game_value(*board, prover, is_or),
    decreases CELLS - board.count(),
{
    proof {
        use_type_invariant(board);
        board.lemma_wf_facts();
        board.lemma_open_cols();
        lemma_win_loss_exclusive(*board, prover, is_or);
    }
    if check_win(board, prover) {
        return SearchResult::Win;
    }
    if check_win(board, prover.opponent()) {
        return SearchResult::Loss;
    }
    if is_full(board) {
        return SearchResult::Draw;
    }
    let moves = valid_moves(board);
    let player = if is_or {
        prover
    } else {
        prover.opponent()
    };
    let mut any_draw = false;
    let mut i: usize = 0;
    while i < moves.len()
        invariant
            i <= moves.len(),
            board.wf(),
            board.count() < CELLS,
            !has_four(*board, prover),
            !has_four(*board, prover.other()),
            moves@ == board.open_cols(),
            player == mover(prover, is_or),
            forall|j: int|
                0 <= j < i ==> game_value(#[trigger] child(*board, moves@, j, player), prover, !is_or)
                    != (if is_or {
                    SearchResult::Win
                } else {
                    SearchResult::Loss
                }),
            any_draw <==> exists|j: int|
                0 <= j < i && game_value(#[trigger] child(*board, moves@, j, player), prover, !is_or)
                    == SearchResult::Draw,
        decreases moves.len() - i,
    {
        proof {
            board.lemma_open_cols();
            board.lemma_dropped(moves@[i as int] as int, player);
        }
        let mut child_board = *board;
        drop_piece(&mut child_board, moves[i], player);
        let v = minimax(&child_board, prover, !is_or);
        assert(child_board == child(*board, moves@, i as int, player));
        if is_or && v == SearchResult::Win {
            proof {
                lemma_or_win_from_child(*board, prover, moves@[i as int] as int);
            }
            return SearchResult::Win;
        }
        if !is_or && v == SearchResult::Loss {
            proof {
                lemma_and_loss_from_child(*board, prover, moves@[i as int] as int);
            }
            return SearchResult::Loss;
        }
        if v == SearchResult::Draw {
            any_draw = true;
        }
        i += 1;
    }
    proof {
        board.lemma_open_cols();
        self::lemma_minimax_end(*board, prover, is_or, moves@, player, any_draw);
    }
    if any_draw {
        SearchResult::Draw
    } else if is_or {
        SearchResult::Loss
    } else {
        SearchResult::Win
    }
}

/// What the children's values say of the node once every child was tried
/// without an immediate cut-off.
proof fn lemma_minimax_end(
    b: Board,
    prover: Piece,
    is_or: bool,
    moves: Seq<usize>,
    player: Piece,
    any_draw: bool,
)
    requires
        !has_four(b, prover),
        !has_four(b, prover.other()),
        b.count() < CELLS,
        moves == b.open_cols(),
        player == mover(prover, is_or),
        forall|j: int|
            0 <= j < moves.len() ==> game_value(#[trigger] child(b, moves, j, player), prover, !is_or)
                != (if is_or {
                SearchResult::Win
            } else {
                SearchResult::Loss
            }),
        any_draw <==> exists|j: int|
            0 <= j < moves.len() && game_value(#[trigger] child(b, moves, j, player), prover, !is_or)
                == SearchResult::Draw,
    ensures
        game_value(b, prover, is_or) == (if any_draw {
            SearchResult::Draw
        } else if is_or {
            SearchResult::Loss
        } else {
            SearchResult::Win
        }),
{
    b.lemma_open_cols();
    lemma_win_loss_exclusive(b, prover, is_or);
    if is_or {
        if prover_wins(b, prover, true) {
            lemma_or_win_to_some_child(b, prover);
            let c = choose|c: int|
                b.is_open_col(c) && prover_wins(#[trigger] b.dropped(c, prover), prover, false);
            assert(moves.contains(c as usize));
            let j = choose|j: int| 0 <= j < moves.len() && moves[j] == c as usize;
            assert(game_value(child(b, moves, j, player), prover, false) == SearchResult::Win);
        }
        if any_draw {
            let j = choose|j: int|
                0 <= j < moves.len() && game_value(#[trigger] child(b, moves, j, player), prover, false)
                    == SearchResult::Draw;
            if prover_loses(b, prover, true) {
                lemma_or_loss_to_child(b, prover, moves[j] as int);
            }
        } else {
            assert forall|c: int| #[trigger] b.is_open_col(c) implies prover_loses(
                b.dropped(c, prover),
                prover,
                false,
            ) by {
                assert(moves.contains(c as usize));
                let j = choose|j: int| 0 <= j < moves.len() && moves[j] == c as usize;
                assert(game_value(child(b, moves, j, player), prover, false) != SearchResult::Draw);
            }
            lemma_or_loss_from_children(b, prover);
        }
    } else {
        if prover_loses(b, prover, false) {
            lemma_and_loss_to_some_child(b, prover);
            let c = choose|c: int|
                b.is_open_col(c) && prover_loses(#[trigger] b.dropped(c, prover.other()), prover, true);
            assert(moves.contains(c as usize));
            let j = choose|j: int| 0 <= j < moves.len() && moves[j] == c as usize;
            lemma_win_loss_exclusive(child(b, moves, j, player), prover, true);
            assert(game_value(child(b, moves, j, player), prover, true) == SearchResult::Loss);
        }
        if any_draw {
            let j = choose|j: int|
                0 <= j < moves.len() && game_value(#[trigger] child(b, moves, j, player), prover, true)
                    == SearchResult::Draw;
            if prover_wins(b, prover, false) {
                lemma_and_win_to_child(b, prover, moves[j] as int);
            }
        } else {
            assert forall|c: int| #[trigger] b.is_open_col(c) implies prover_wins(
                b.dropped(c, prover.other()),
                prover,
                true,
            ) by {
                assert(moves.contains(c as usize));
                let j = choose|j: int| 0 <= j < moves.len() && moves[j] == c as usize;
                assert(game_value(child(b, moves, j, player), prover, true) != SearchResult::Draw);
            }
            lemma_and_win_from_children(b, prover);
        }
    }
}

} // verus!
