use vstd::prelude::*;

use crate::board::{Board, Piece, CELLS, COLS};
use crate::eval::{board_full, check_win, has_four, is_full};
use crate::move_exec::drop_piece;
use crate::move_gen::valid_moves;
use crate::numbers::{
    capped, capped_sum, capped_sum_except, count_within, first_min, first_min_index, first_min_prefix, min_prefix,
    lemma_count_within_update, lemma_seq_sum_facts, lemma_seq_sum_update, min_value, seq_min, seq_sum, INF,
};
use crate::value::{
    child, game_value, lemma_and_loss_from_child, lemma_and_win_from_children, lemma_or_loss_from_children,
    lemma_or_win_from_child, lemma_win_loss_exclusive, minimax, mover, prover_loses, prover_wins,
};

verus! {

broadcast use crate::board::lemma_dropped_count;

/// Outcome of a solved position, for the player the search proves for.
#[derive(Debug, Clone, Copy, PartialEq, Eq, Structural)]
pub enum SearchResult {
    Win,
    Loss,
    Draw,
}

/// Receives progress reports from a running search.
pub trait SearchObserver {
    /// Called every 4097 visited nodes, with the node count, the depth of the
    /// node, its thresholds and the current line of play.
    fn on_node(&mut self, nodes: u64, depth: usize, pn_limit: u32, dn_limit: u32, pv: &Vec<usize>);

    /// Called after a root search that exceeded its thresholds, before they
    /// are doubled.
    fn on_iteration(&mut self, nodes: u64, node_pn: u32, node_dn: u32, pv: &Vec<usize>);
}

/// An observer that ignores every report.
pub struct QuietObserver;

impl SearchObserver for QuietObserver {
    fn on_node(&mut self, nodes: u64, depth: usize, pn_limit: u32, dn_limit: u32, pv: &Vec<usize>) {
    }

    fn on_iteration(&mut self, nodes: u64, node_pn: u32, node_dn: u32, pv: &Vec<usize>) {
    }
}

/// What a bounded proof-number search may answer about `b`: proof number 0
/// only for a forced win, disproof number 0 only for a forced loss, a
/// result only when it is the game value, and no result only when a
/// threshold was exceeded.
pub open spec fn sound_outcome(
    res: (Option<SearchResult>, u32, u32),
    b: Board,
    prover: Piece,
    is_or: bool,
    pn_limit: u32,
    dn_limit: u32,
) -> bool {
    &&& res.1 <= INF
    &&& res.2 <= INF
    &&& res.1 == 0 ==> prover_wins(b, prover, is_or)
    &&& res.2 == 0 ==> prover_loses(b, prover, is_or)
    &&& match res.0 {
        Some(SearchResult::Win) => res.1 == 0 && res.2 == INF,
        Some(SearchResult::Loss) => res.1 == INF && res.2 == 0,
        Some(SearchResult::Draw) => res.1 == INF && res.2 == INF && game_value(b, prover, is_or)
            == SearchResult::Draw,
        None => res.1 > 0 && res.2 > 0 && (res.1 > pn_limit || res.2 > dn_limit),
    }
}

/// The loop measure of a node: the children still within the threshold
/// that selects them, plus one while the other number is within its own.
pub open spec fn node_measure(
    is_or: bool,
    child_pn: Seq<u32>,
    child_dn: Seq<u32>,
    pn_limit: u32,
    dn_limit: u32,
) -> int {
    if is_or {
        count_within(child_pn, pn_limit) + (if capped(seq_sum(child_dn)) <= dn_limit {
            1int
        } else {
            0int
        })
    } else {
        count_within(child_dn, dn_limit) + (if capped(seq_sum(child_pn)) <= pn_limit {
            1int
        } else {
            0int
        })
    }
}

/// A node whose proof number is 0 is a forced win: at an OR node some child
/// has proof number 0, at an AND node all of them do.
proof fn lemma_node_proved(b: Board, prover: Piece, is_or: bool, moves: Seq<usize>, child_pn: Seq<u32>)
    requires
        !has_four(b, prover),
        !has_four(b, prover.other()),
        b.count() < CELLS,
        moves == b.open_cols(),
        child_pn.len() == moves.len(),
        forall|i: int|
            0 <= i < child_pn.len() && #[trigger] child_pn[i] == 0 ==> prover_wins(
                child(b, moves, i, mover(prover, is_or)),
                prover,
                !is_or,
            ),
        is_or ==> exists|i: int| 0 <= i < child_pn.len() && #[trigger] child_pn[i] == 0,
        !is_or ==> capped(seq_sum(child_pn)) == 0,
    ensures
        prover_wins(b, prover, is_or),
{
    b.lemma_open_cols();
    if is_or {
        let i = choose|i: int| 0 <= i < child_pn.len() && #[trigger] child_pn[i] == 0;
        lemma_or_win_from_child(b, prover, moves[i] as int);
    } else {
        lemma_seq_sum_facts(child_pn);
        assert forall|c: int| #[trigger] b.is_open_col(c) implies prover_wins(
            b.dropped(c, prover.other()),
            prover,
            true,
        ) by {
            assert(moves.contains(c as usize));
            let i = choose|i: int| 0 <= i < moves.len() && moves[i] == c as usize;
            assert(child_pn[i] == 0);
        }
        lemma_and_win_from_children(b, prover);
    }
}

/// A node whose disproof number is 0 is a forced loss: at an OR node all
/// children have disproof number 0, at an AND node some child does.
proof fn lemma_node_disproved(b: Board, prover: Piece, is_or: bool, moves: Seq<usize>, child_dn: Seq<u32>)
    requires
        !has_four(b, prover),
        !has_four(b, prover.other()),
        b.count() < CELLS,
        moves == b.open_cols(),
        child_dn.len() == moves.len(),
        forall|i: int|
            0 <= i < child_dn.len() && #[trigger] child_dn[i] == 0 ==> prover_loses(
                child(b, moves, i, mover(prover, is_or)),
                prover,
                !is_or,
            ),
        !is_or ==> exists|i: int| 0 <= i < child_dn.len() && #[trigger] child_dn[i] == 0,
        is_or ==> capped(seq_sum(child_dn)) == 0,
    ensures
        prover_loses(b, prover, is_or),
{
    b.lemma_open_cols();
    if !is_or {
        let i = choose|i: int| 0 <= i < child_dn.len() && #[trigger] child_dn[i] == 0;
        lemma_and_loss_from_child(b, prover, moves[i] as int);
    } else {
        lemma_seq_sum_facts(child_dn);
        assert forall|c: int| #[trigger] b.is_open_col(c) implies prover_loses(
            b.dropped(c, prover),
            prover,
            false,
        ) by {
            assert(moves.contains(c as usize));
            let i = choose|i: int| 0 <= i < moves.len() && moves[i] == c as usize;
            assert(child_dn[i] == 0);
        }
        lemma_or_loss_from_children(b, prover);
    }
}

/// The threshold handed to the selected child, from the parent's threshold
/// and the saturated sum of the siblings' numbers.
pub open spec fn remaining_limit(limit: u32, siblings: int) -> int {
    if limit - siblings < 1 {
        1
    } else {
        limit - siblings
    }
}

/// One round of a node's loop that does not end the node lowers its
/// measure: either the selected child leaves the threshold that selected
/// it, or the other number of the node exceeds its threshold.
proof fn lemma_measure_decreases(
    is_or: bool,
    old_pn: Seq<u32>,
    old_dn: Seq<u32>,
    i: int,
    new_pn: u32,
    new_dn: u32,
    pn_limit: u32,
    dn_limit: u32,
    child_pn_limit: u32,
    child_dn_limit: u32,
    result: Option<SearchResult>,
)
    requires
        pn_limit < INF,
        dn_limit < INF,
        0 <= i < old_pn.len(),
        old_pn.len() == old_dn.len(),
        new_pn <= INF,
        new_dn <= INF,
        is_or ==> {
            &&& old_pn[i] <= pn_limit
            &&& capped(seq_sum(old_dn)) <= dn_limit
            &&& child_pn_limit == pn_limit
            &&& child_dn_limit == remaining_limit(dn_limit, capped(seq_sum(old_dn) - old_dn[i]))
            &&& result != Some(SearchResult::Win)
        },
        !is_or ==> {
            &&& old_dn[i] <= dn_limit
            &&& capped(seq_sum(old_pn)) <= pn_limit
            &&& child_dn_limit == dn_limit
            &&& child_pn_limit == remaining_limit(pn_limit, capped(seq_sum(old_pn) - old_pn[i]))
            &&& result != Some(SearchResult::Loss)
        },
        match result {
            Some(SearchResult::Win) => new_pn == 0 && new_dn == INF,
            Some(SearchResult::Loss) => new_pn == INF && new_dn == 0,
            Some(SearchResult::Draw) => new_pn == INF && new_dn == INF,
            None => new_pn > child_pn_limit || new_dn > child_dn_limit,
        },
    ensures
        0 <= node_measure(is_or, old_pn.update(i, new_pn), old_dn.update(i, new_dn), pn_limit, dn_limit)
            < node_measure(is_or, old_pn, old_dn, pn_limit, dn_limit),
{
    lemma_count_within_update(old_pn, pn_limit, i, new_pn);
    lemma_count_within_update(old_dn, dn_limit, i, new_dn);
    lemma_seq_sum_update(old_pn, i, new_pn);
    lemma_seq_sum_update(old_dn, i, new_dn);
    lemma_seq_sum_facts(old_pn);
    lemma_seq_sum_facts(old_dn);
}

/// `n` fresh proof (or disproof) numbers, all 1.
pub open spec fn ones(n: nat) -> Seq<u32> {
    Seq::new(n, |i: int| 1u32)
}

/// The proof and disproof numbers of a node from those of its children:
/// at an OR node the smallest proof number and the capped sum of the
/// disproof numbers, at an AND node the reverse.
pub open spec fn node_numbers(is_or: bool, child_pn: Seq<u32>, child_dn: Seq<u32>) -> (u32, u32) {
    if is_or {
        (seq_min(child_pn), capped(seq_sum(child_dn)) as u32)
    } else {
        (capped(seq_sum(child_pn)) as u32, seq_min(child_dn))
    }
}

/// What the depth-first proof-number search of `b` for `prover` returns
/// within the thresholds `pn_limit` and `dn_limit` (the answer, the proof
/// number and the disproof number), and how many nodes it visits (this one
/// and those of every child search). A position already won, lost or full
/// is answered at once; otherwise every child starts with numbers 1 and the
/// node loop runs.
pub open spec fn pn_search(b: Board, prover: Piece, is_or: bool, pn_limit: u32, dn_limit: u32) -> (
    Option<SearchResult>,
    u32,
    u32,
    nat,
)
    decreases CELLS - b.count(), node_measure(
        is_or,
        ones(b.open_cols().len()),
        ones(b.open_cols().len()),
        pn_limit,
        dn_limit,
    ) + 1,
{
    if has_four(b, prover) {
        (Some(SearchResult::Win), 0, INF, 1)
    } else if has_four(b, prover.other()) {
        (Some(SearchResult::Loss), INF, 0, 1)
    } else if b.count() >= CELLS || b.open_cols().len() == 0 {
        (Some(SearchResult::Draw), INF, INF, 1)
    } else {
        let r = pn_loop(
            b,
            prover,
            is_or,
            pn_limit,
            dn_limit,
            ones(b.open_cols().len()),
            ones(b.open_cols().len()),
        );
        (r.0, r.1, r.2, r.3 + 1)
    }
}

/// The answer and numbers of `pn_search`, without the visit count.
pub open spec fn search_answer(b: Board, prover: Piece, is_or: bool, pn_limit: u32, dn_limit: u32) -> (
    Option<SearchResult>,
    u32,
    u32,
) {
    let r = pn_search(b, prover, is_or, pn_limit, dn_limit);
    (r.0, r.1, r.2)
}

/// The node loop of the search, from the children's current numbers: the
/// node is proved or disproved when its proof or disproof number is 0; it
/// stops without an answer when a number exceeds its threshold; otherwise
/// the first child with the smallest selecting number (proof number at an
/// OR node, disproof number at an AND node) is searched with the parent's
/// threshold for that number and, for the other number, the parent's
/// threshold less the siblings' capped sum (at least 1). A child that
/// settles the node ends it; else the loop goes on with the child's new
/// numbers. The last component counts the nodes the child searches visit.
pub open spec fn pn_loop(
    b: Board,
    prover: Piece,
    is_or: bool,
    pn_limit: u32,
    dn_limit: u32,
    child_pn: Seq<u32>,
    child_dn: Seq<u32>,
) -> (Option<SearchResult>, u32, u32, nat)
    decreases CELLS - b.count(), node_measure(is_or, child_pn, child_dn, pn_limit, dn_limit),
{
    let (node_pn, node_dn) = node_numbers(is_or, child_pn, child_dn);
    if node_pn == 0 {
        (Some(SearchResult::Win), 0, INF, 0)
    } else if node_dn == 0 {
        (Some(SearchResult::Loss), INF, 0, 0)
    } else if node_pn > pn_limit || node_dn > dn_limit {
        (None, node_pn, node_dn, 0)
    } else if b.count() >= CELLS {
        (None, node_pn, node_dn, 0)
    } else {
        let best = if is_or {
            first_min(child_pn)
        } else {
            first_min(child_dn)
        };
        let child_pn_limit: u32 = if is_or {
            pn_limit
        } else {
            remaining_limit(pn_limit, capped(seq_sum(child_pn) - child_pn[best])) as u32
        };
        let child_dn_limit: u32 = if is_or {
            remaining_limit(dn_limit, capped(seq_sum(child_dn) - child_dn[best])) as u32
        } else {
            dn_limit
        };
        let r = pn_search(
            b.dropped(b.open_cols()[best] as int, mover(prover, is_or)),
            prover,
            !is_or,
            child_pn_limit,
            child_dn_limit,
        );
        if is_or && r.0 == Some(SearchResult::Win) {
            (Some(SearchResult::Win), 0, INF, r.3)
        } else if !is_or && r.0 == Some(SearchResult::Loss) {
            (Some(SearchResult::Loss), INF, 0, r.3)
        } else {
            let next_pn = child_pn.update(best, r.1);
            let next_dn = child_dn.update(best, r.2);
            if node_measure(is_or, next_pn, next_dn, pn_limit, dn_limit) < node_measure(
                is_or,
                child_pn,
                child_dn,
                pn_limit,
                dn_limit,
            ) {
                let rest = pn_loop(b, prover, is_or, pn_limit, dn_limit, next_pn, next_dn);
                (rest.0, rest.1, rest.2, r.3 + rest.3)
            } else {
                // Not reached from the search's states: each round lowers the measure.
                (None, node_pn, node_dn, r.3)
            }
        }
    }
}

/// A node counter after `k` more visits, saturating at `u64::MAX`.
pub open spec fn sat_add(nodes: u64, k: nat) -> u64 {
    if nodes + k > u64::MAX {
        u64::MAX
    } else {
        (nodes + k) as u64
    }
}

/// Adding visits in two steps or in one gives the same counter.
pub proof fn lemma_sat_add_twice(nodes: u64, k1: nat, k2: nat)
    ensures
        sat_add(sat_add(nodes, k1), k2) == sat_add(nodes, k1 + k2),
{
}

/// The position is answered at once, without a child search.
pub open spec fn settled_at_once(b: Board, prover: Piece) -> bool {
    has_four(b, prover) || has_four(b, prover.other()) || board_full(b)
}

/// Depth-first proof-number search of `board` for `prover`, within the
/// thresholds `pn_limit` and `dn_limit`. `nodes` counts the visited nodes
/// (saturating), `depth` labels progress reports, and `pv` holds the line
/// being explored. Thresholds of `INF` are accepted only where the position
/// is answered at once: a drawn child has proof and disproof numbers `INF`,
/// and with a threshold of `INF` the node loop could select it forever.
pub fn df_pn<O: SearchObserver>(
    board: &Board,
    prover: Piece,
    is_or: bool,
    pn_limit: u32,
    dn_limit: u32,
    nodes: &mut u64,
    obs: &mut O,
    pv: &mut Vec<usize>,
    depth: usize,
) -> (res: (Option<SearchResult>, u32, u32))
    requires
        (pn_limit < INF && dn_limit < INF) || settled_at_once(*board, prover),
    ensures
        res == search_answer(*board, prover, is_or, pn_limit, dn_limit),
        *final(nodes) == sat_add(*old(nodes), pn_search(*board, prover, is_or, pn_limit, dn_limit).3),
        sound_outcome(res, *board, prover, is_or, pn_limit, dn_limit),
        has_four(*board, prover) ==> res == (Some(SearchResult::Win), 0u32, INF),
        !has_four(*board, prover) && has_four(*board, prover.other()) ==> res == (
            Some(SearchResult::Loss),
            INF,
            0u32,
        ),
        !has_four(*board, prover) && !has_four(*board, prover.other()) && board_full(*board) ==> res
            == (Some(SearchResult::Draw), INF, INF),
        res.0 == Some(SearchResult::Draw) ==> board_full(*board),
        settled_at_once(*board, prover) ==> *final(nodes) == sat_add(*old(nodes), 1),
        final(pv)@ == old(pv)@,
    decreases CELLS - board.count(),
{
    *nodes = (*nodes).saturating_add(1);
    let ghost entry_nodes = *nodes;
    let ghost mut spent: nat = 0;
    if *nodes % 4097 == 0 {
        obs.on_node(*nodes, depth, pn_limit, dn_limit, pv);
    }
    proof {
        use_type_invariant(board);
        board.lemma_wf_facts();
        board.lemma_open_cols();
    }

    if check_win(board, prover) {
        return (Some(SearchResult::Win), 0, INF);
    }
    if check_win(board, prover.opponent()) {
        return (Some(SearchResult::Loss), INF, 0);
    }
    if is_full(board) {
        return (Some(SearchResult::Draw), INF, INF);
    }

    let moves = valid_moves(board);
    if moves.len() == 0 {
        assert(false) by {
            let c = choose|c: int| 0 <= c < COLS && #[trigger] board.is_open_col(c);
            assert(board.open_cols().contains(c as usize));
        }
        return (Some(SearchResult::Draw), INF, INF);
    }

    let current_player = if is_or {
        prover
    } else {
        prover.opponent()
    };
    let n = moves.len();
    let mut child_pn: Vec<u32> = Vec::new();
    let mut child_dn: Vec<u32> = Vec::new();
    while child_pn.len() < n
        invariant
            child_pn.len() == child_dn.len() <= n,
            forall|i: int| 0 <= i < child_pn.len() ==> #[trigger] child_pn@[i] == 1,
            forall|i: int| 0 <= i < child_dn.len() ==> #[trigger] child_dn@[i] == 1,
        decreases n - child_pn.len(),
    {
        child_pn.push(1);
        child_dn.push(1);
    }
    assert(child_pn@ =~= ones(n as nat));
    assert(child_dn@ =~= ones(n as nat));

    loop
        invariant
            pn_limit < INF,
            dn_limit < INF,
            board.count() < CELLS,
            board.wf(),
            !has_four(*board, prover),
            !has_four(*board, prover.other()),
            moves@ == board.open_cols(),
            n == moves.len() > 0,
            child_pn.len() == n,
            child_dn.len() == n,
            current_player == mover(prover, is_or),
            pv@ == old(pv)@,
            entry_nodes == sat_add(*old(nodes), 1),
            *nodes == sat_add(entry_nodes, spent),
            ({
                let rest = pn_loop(*board, prover, is_or, pn_limit, dn_limit, child_pn@, child_dn@);
                let whole = pn_search(*board, prover, is_or, pn_limit, dn_limit);
                &&& (rest.0, rest.1, rest.2) == (whole.0, whole.1, whole.2)
                &&& whole.3 == 1 + spent + rest.3
            }),
            forall|i: int| 0 <= i < n ==> #[trigger] child_pn@[i] <= INF,
            forall|i: int| 0 <= i < n ==> #[trigger] child_dn@[i] <= INF,
            forall|i: int|
                0 <= i < n && #[trigger] child_pn@[i] == 0 ==> prover_wins(
                    child(*board, moves@, i, current_player),
                    prover,
                    !is_or,
                ),
            forall|i: int|
                0 <= i < n && #[trigger] child_dn@[i] == 0 ==> prover_loses(
                    child(*board, moves@, i, current_player),
                    prover,
                    !is_or,
                ),
        decreases node_measure(is_or, child_pn@, child_dn@, pn_limit, dn_limit),
    {
        let (node_pn, node_dn) = if is_or {
            (min_value(&child_pn), capped_sum(&child_dn))
        } else {
            (capped_sum(&child_pn), min_value(&child_dn))
        };

        if node_pn == 0 {
            proof {
                self::lemma_node_proved(*board, prover, is_or, moves@, child_pn@);
            }
            return (Some(SearchResult::Win), 0, INF);
        }
        if node_dn == 0 {
            proof {
                self::lemma_node_disproved(*board, prover, is_or, moves@, child_dn@);
            }
            return (Some(SearchResult::Loss), INF, 0);
        }
        if node_pn > pn_limit || node_dn > dn_limit {
            return (None, node_pn, node_dn);
        }

        let best_idx = if is_or {
            first_min_index(&child_pn)
        } else {
            first_min_index(&child_dn)
        };

        let (child_pn_limit, child_dn_limit) = if is_or {
            let sibling_dn_sum = capped_sum_except(&child_dn, best_idx);
            let remaining_dn = if node_dn > dn_limit {
                1u32
            } else {
                let r = dn_limit.saturating_sub(sibling_dn_sum);
                if r < 1 {
                    1u32
                } else {
                    r
                }
            };
            (pn_limit, remaining_dn)
        } else {
            let sibling_pn_sum = capped_sum_except(&child_pn, best_idx);
            let remaining_pn = if node_pn > pn_limit {
                1u32
            } else {
                let r = pn_limit.saturating_sub(sibling_pn_sum);
                if r < 1 {
                    1u32
                } else {
                    r
                }
            };
            (remaining_pn, dn_limit)
        };

        proof {
            board.lemma_open_cols();
            assert(board.is_open_col(moves@[best_idx as int] as int));
        }
        let mut child_board = *board;
        drop_piece(&mut child_board, moves[best_idx], current_player);
        let pv_len = pv.len();
        pv.push(moves[best_idx]);
        proof {
            board.lemma_dropped(moves@[best_idx as int] as int, current_player);
        }
        let ghost before_nodes = *nodes;
        let (result, new_pn, new_dn) = df_pn(
            &child_board,
            prover,
            !is_or,
            child_pn_limit,
            child_dn_limit,
            nodes,
            obs,
            pv,
            depth.saturating_add(1),
        );
        pv.truncate(pv_len);
        proof {
            assert(pv@ =~= old(pv)@);
            let visits = pn_search(child_board, prover, !is_or, child_pn_limit, child_dn_limit).3;
            lemma_sat_add_twice(entry_nodes, spent, visits);
            spent = spent + visits;
        }

        let ghost old_pn = child_pn@;
        let ghost old_dn = child_dn@;
        child_pn.set(best_idx, new_pn);
        child_dn.set(best_idx, new_dn);
        match result {
            Some(SearchResult::Win) => {
                if is_or {
                    proof {
                        lemma_or_win_from_child(*board, prover, moves@[best_idx as int] as int);
                    }
                    return (Some(SearchResult::Win), 0, INF);
                }
            },
            Some(SearchResult::Loss) => {
                if !is_or {
                    proof {
                        lemma_and_loss_from_child(*board, prover, moves@[best_idx as int] as int);
                    }
                    return (Some(SearchResult::Loss), INF, 0);
                }
            },
            _ => {},
        }
        proof {
            self::lemma_measure_decreases(
                is_or,
                old_pn,
                old_dn,
                best_idx as int,
                new_pn,
                new_dn,
                pn_limit,
                dn_limit,
                child_pn_limit,
                child_dn_limit,
                result,
            );
        }

    }
}

/// A threshold doubled, saturating at `INF`.
pub open spec fn doubled_limit(limit: u32) -> u32 {
    if 2 * limit > INF {
        INF
    } else {
        (2 * limit) as u32
    }
}

/// The rounds of iterative deepening from the root, starting at threshold
/// `limit` (for both numbers) with `nodes` visits counted so far: each
/// round searches the root as an OR node; a round that settles it ends the
/// deepening with its answer and numbers, any other is recorded (the node
/// count after it and the root's numbers) and the thresholds double, up to
/// `INF` excluded. Also gives the final node count.
pub open spec fn deepening(b: Board, player: Piece, limit: u32, nodes: u64) -> (
    Option<(SearchResult, u32, u32)>,
    u64,
    Seq<(u64, u32, u32)>,
)
    decreases INF - limit,
{
    if limit >= INF || limit == 0 {
        (None, nodes, Seq::empty())
    } else {
        let r = pn_search(b, player, true, limit, limit);
        let after = sat_add(nodes, r.3);
        match r.0 {
            Some(v) => (Some((v, r.1, r.2)), after, Seq::empty()),
            None => {
                let rest = deepening(b, player, doubled_limit(limit), after);
                (rest.0, rest.1, seq![(after, r.1, r.2)] + rest.2)
            },
        }
    }
}

/// Doubles a threshold, saturating at `INF`.
fn next_limit(limit: u32) -> (next: u32)
    requires
        limit < INF,
    ensures
        next == doubled_limit(limit),
{
    let doubled = limit * 2;
    if doubled > INF {
        INF
    } else {
        doubled
    }
}

/// The answer of a solved position with the numbers the root ends with,
/// the number of nodes the search visited and the rounds of iterative
/// deepening that did not settle the position (node count after the round,
/// root proof number, root disproof number).
pub struct SolveReport {
    pub result: SearchResult,
    pub nodes: u64,
    pub node_pn: u32,
    pub node_dn: u32,
    pub rounds: Vec<(u64, u32, u32)>,
}

/// The root's proof and disproof numbers once its value is known.
pub open spec fn settled_numbers(result: SearchResult) -> (u32, u32) {
    match result {
        SearchResult::Win => (0, INF),
        SearchResult::Loss => (INF, 0),
        SearchResult::Draw => (INF, INF),
    }
}

/// Solves `board` for `player`, who is to move, reporting each round that
/// does not settle the position to `obs`. Proof-number search runs from the
/// root with thresholds 1, 2, 4, ... below `INF` (`deepening`); a position
/// it has not settled by then (a drawn one in particular) is settled by
/// exhaustive minimax.
pub fn solve_observed<O: SearchObserver>(board: &Board, player: Piece, obs: &mut O) -> (report:
    SolveReport)
    ensures
        report.result == game_value(*board, player, true),
        (report.node_pn, report.node_dn) == settled_numbers(report.result),
        report.nodes == deepening(*board, player, 1, 0).1,
        report.rounds@ == deepening(*board, player, 1, 0).2,
        deepening(*board, player, 1, 0).0 matches Some(settled) ==> (
        report.result,
        report.node_pn,
        report.node_dn,
        ) == settled,
        report.nodes >= 1,
        settled_at_once(*board, player) ==> report.nodes == 1 && report.rounds@.len() == 0,
{
    proof {
        use_type_invariant(board);
        board.lemma_wf_facts();
    }
    let ghost whole = deepening(*board, player, 1, 0);
    let mut nodes: u64 = 0;
    let mut pn_limit: u32 = 1;
    let mut dn_limit: u32 = 1;
    let mut pv: Vec<usize> = Vec::new();
    let mut rounds: Vec<(u64, u32, u32)> = Vec::new();
    while pn_limit < INF && dn_limit < INF
        invariant
            1 <= pn_limit <= INF,
            dn_limit == pn_limit,
            pn_limit > 1 ==> nodes >= 1,
            pn_limit > 1 ==> !settled_at_once(*board, player),
            whole == deepening(*board, player, 1, 0),
            deepening(*board, player, pn_limit, nodes).0 == whole.0,
            deepening(*board, player, pn_limit, nodes).1 == whole.1,
            rounds@ + deepening(*board, player, pn_limit, nodes).2 == whole.2,
            0 <= board.count(),
        decreases (INF - pn_limit) + (INF - dn_limit),
    {
        let b = *board;
        pv.clear();
        let ghost nodes_before = nodes;
        let (result, node_pn, node_dn) = df_pn(
            &b,
            player,
            true,
            pn_limit,
            dn_limit,
            &mut nodes,
            obs,
            &mut pv,
            0,
        );
        if let Some(r) = result {
            proof {
                lemma_win_loss_exclusive(*board, player, true);
                assert(rounds@ =~= whole.2);
            }
            return SolveReport { result: r, nodes, node_pn, node_dn, rounds };
        }
        let ghost prev_rounds = rounds@;
        rounds.push((nodes, node_pn, node_dn));
        obs.on_iteration(nodes, node_pn, node_dn, &pv);
        proof {
            let rest = deepening(*board, player, doubled_limit(pn_limit), nodes);
            assert(deepening(*board, player, pn_limit, nodes_before) == (
                rest.0,
                rest.1,
                seq![(nodes, node_pn, node_dn)] + rest.2,
            ));
            assert(rounds@ + rest.2 =~= prev_rounds + (seq![(nodes, node_pn, node_dn)] + rest.2));
        }
        pn_limit = next_limit(pn_limit);
        dn_limit = next_limit(dn_limit);
    }
    let r = minimax(board, player, true);
    let (node_pn, node_dn) = match r {
        SearchResult::Win => (0u32, INF),
        SearchResult::Loss => (INF, 0u32),
        SearchResult::Draw => (INF, INF),
    };
    proof {
        assert(rounds@ =~= whole.2);
    }
    SolveReport { result: r, nodes, node_pn, node_dn, rounds }
}

/// Solves `board` for `player`, who is to move: `Win` when `player` can
/// force four in a row, `Loss` when the opponent can, `Draw` otherwise.
pub fn solve(board: &Board, player: Piece) -> (result: SearchResult)
    ensures
        result == game_value(*board, player, true),
{
    let mut quiet = QuietObserver;
    solve_observed(board, player, &mut quiet).result
}

/// Facts about fresh numbers: `k` children all at 1.
proof fn lemma_ones(k: nat)
    requires
        1 <= k <= COLS,
    ensures
        seq_min(ones(k)) == 1,
        seq_sum(ones(k)) == k,
        first_min(ones(k)) == 0,
        seq_sum(ones(k)) - ones(k)[0] == k - 1,
    decreases k,
{
    lemma_ones_prefix(k, k as int);
    let s = ones(k);
    assert(s.last() == 1);
    assert(seq_sum(s) == seq_sum(s.drop_last()) + s.last());
    if k > 1 {
        lemma_ones(((k - 1) as nat));
        assert(s.drop_last() =~= ones((k - 1) as nat));
    } else {
        assert(s.drop_last() =~= Seq::<u32>::empty());
        assert(seq_sum(Seq::<u32>::empty()) == 0);
    }
    assert(s[0] == 1);
}

proof fn lemma_ones_prefix(k: nat, n: int)
    requires
        1 <= n <= k,
    ensures
        min_prefix(ones(k), n) == 1,
        first_min_prefix(ones(k), n) == 0,
    decreases n,
{
    if n > 1 {
        lemma_ones_prefix(k, n - 1);
    }
}

/// A position already won, lost or full is one visited node.
pub proof fn lemma_settled_counts_one(
    b: Board,
    prover: Piece,
    is_or: bool,
    pn_limit: u32,
    dn_limit: u32,
)
    requires
        settled_at_once(b, prover),
    ensures
        pn_search(b, prover, is_or, pn_limit, dn_limit).3 == 1,
{
}

/// On an open position with `k` open columns, every child starts at 1: an
/// OR node has proof number 1 and disproof number `k`, an AND node the
/// reverse. When that exceeds a threshold the search stops at once, without
/// a child search, after one visited node.
pub proof fn lemma_first_round_cutoff(b: Board, prover: Piece, pn_limit: u32, dn_limit: u32)
    requires
        b.wf(),
        !settled_at_once(b, prover),
    ensures
        1 <= pn_limit && dn_limit < b.open_cols().len() ==> pn_search(b, prover, true, pn_limit, dn_limit)
            == (None::<SearchResult>, 1u32, b.open_cols().len() as u32, 1nat),
        1 <= dn_limit && pn_limit < b.open_cols().len() ==> pn_search(b, prover, false, pn_limit, dn_limit)
            == (None::<SearchResult>, b.open_cols().len() as u32, 1u32, 1nat),
{
    b.lemma_wf_facts();
    b.lemma_open_cols();
    let k = b.open_cols().len();
    if k >= 1 {
        lemma_ones(k);
    }
}

/// The first child searched at an open OR node is the lowest open column;
/// it gets the node's proof threshold and the disproof threshold less the
/// other children's 1s. When that child search proves the node, the node is
/// won and has visited exactly one node more than the child search.
pub proof fn lemma_first_child_proves(b: Board, prover: Piece, pn_limit: u32, dn_limit: u32)
    requires
        b.wf(),
        !settled_at_once(b, prover),
        1 <= pn_limit,
        b.open_cols().len() <= dn_limit,
        pn_search(
            b.dropped(b.open_cols()[0] as int, prover),
            prover,
            false,
            pn_limit,
            remaining_limit(dn_limit, b.open_cols().len() - 1) as u32,
        ).0 == Some(SearchResult::Win),
    ensures
        pn_search(b, prover, true, pn_limit, dn_limit) == (
            Some(SearchResult::Win),
            0u32,
            INF,
            1 + pn_search(
                b.dropped(b.open_cols()[0] as int, prover),
                prover,
                false,
                pn_limit,
                remaining_limit(dn_limit, b.open_cols().len() - 1) as u32,
            ).3,
        ),
{
    b.lemma_wf_facts();
    b.lemma_open_cols();
    let k = b.open_cols().len();
    assert(k >= 1) by {
        let c = choose|c: int| 0 <= c < COLS && #[trigger] b.is_open_col(c);
        assert(b.open_cols().contains(c as usize));
    }
    lemma_ones(k);
}

/// The first child searched at an open AND node is the lowest open column;
/// it gets the proof threshold less the other children's 1s and the node's
/// disproof threshold. When that child search disproves the node, the node
/// is lost and has visited exactly one node more than the child search.
pub proof fn lemma_first_child_disproves(b: Board, prover: Piece, pn_limit: u32, dn_limit: u32)
    requires
        b.wf(),
        !settled_at_once(b, prover),
        1 <= dn_limit,
        b.open_cols().len() <= pn_limit,
        pn_search(
            b.dropped(b.open_cols()[0] as int, prover.other()),
            prover,
            true,
            remaining_limit(pn_limit, b.open_cols().len() - 1) as u32,
            dn_limit,
        ).0 == Some(SearchResult::Loss),
    ensures
        pn_search(b, prover, false, pn_limit, dn_limit) == (
            Some(SearchResult::Loss),
            INF,
            0u32,
            1 + pn_search(
                b.dropped(b.open_cols()[0] as int, prover.other()),
                prover,
                true,
                remaining_limit(pn_limit, b.open_cols().len() - 1) as u32,
                dn_limit,
            ).3,
        ),
{
    b.lemma_wf_facts();
    b.lemma_open_cols();
    let k = b.open_cols().len();
    assert(k >= 1) by {
        let c = choose|c: int| 0 <= c < COLS && #[trigger] b.is_open_col(c);
        assert(b.open_cols().contains(c as usize));
    }
    lemma_ones(k);
}

/// With one empty cell left whose filling makes no four in a row, the
/// search visits the node and its only child (a full, drawn grid) and stops
/// without an answer, both numbers at `INF`: two visited nodes.
pub proof fn lemma_last_cell_drawn(b: Board, prover: Piece, is_or: bool, pn_limit: u32, dn_limit: u32)
    requires
        b.wf(),
        !settled_at_once(b, prover),
        b.count() == CELLS - 1,
        1 <= pn_limit < INF,
        1 <= dn_limit < INF,
        !has_four(b.dropped(b.open_cols()[0] as int, mover(prover, is_or)), prover),
        !has_four(b.dropped(b.open_cols()[0] as int, mover(prover, is_or)), prover.other()),
    ensures
        b.open_cols().len() == 1,
        pn_search(b, prover, is_or, pn_limit, dn_limit) == (None::<SearchResult>, INF, INF, 2nat),
{
    b.lemma_wf_facts();
    b.lemma_open_cols();
    let cols = b.open_cols();
    assert(cols.len() >= 1) by {
        let c = choose|c: int| 0 <= c < COLS && #[trigger] b.is_open_col(c);
        assert(cols.contains(c as usize));
    }
    if cols.len() >= 2 {
        assert(cols[0] < cols[1]);
        assert(b.is_open_col(cols[0] as int));
        assert(b.is_open_col(cols[1] as int));
        assert(false);
    }
    lemma_ones(1);
    let player = mover(prover, is_or);
    b.lemma_dropped(cols[0] as int, player);
    let child = b.dropped(cols[0] as int, player);
    assert(child.count() == CELLS);
    assert(ones(1).update(0, INF) =~= seq![INF]);
    assert(seq![INF].drop_last() =~= Seq::<u32>::empty());
    assert(ones(1).drop_last() =~= Seq::<u32>::empty());
    assert(seq_min(seq![INF]) == INF);
    assert(seq_sum(seq![INF]) == INF);
    assert(seq![INF].last() == INF);
    assert(count_within(Seq::<u32>::empty(), pn_limit) == 0);
    assert(count_within(seq![INF], pn_limit) == 0);
    assert(count_within(Seq::<u32>::empty(), dn_limit) == 0);
    assert(count_within(seq![INF], dn_limit) == 0);
    assert(count_within(ones(1), pn_limit) == 1);
    assert(count_within(ones(1), dn_limit) == 1);
    let r = pn_search(child, prover, !is_or, pn_limit, dn_limit);
    assert(r == (Some(SearchResult::Draw), INF, INF, 1nat));
    let next = pn_loop(b, prover, is_or, pn_limit, dn_limit, seq![INF], seq![INF]);
    assert(next == (None::<SearchResult>, INF, INF, 0nat));
    assert(remaining_limit(dn_limit, capped(seq_sum(ones(1)) - ones(1)[0])) == dn_limit);
    assert(remaining_limit(pn_limit, capped(seq_sum(ones(1)) - ones(1)[0])) == pn_limit);
    assert(pn_loop(b, prover, is_or, pn_limit, dn_limit, ones(1), ones(1)) == (
        None::<SearchResult>,
        INF,
        INF,
        1nat,
    ));
}

/// The threshold of the `i`-th round of deepening that starts at `limit`.
pub open spec fn limit_after(limit: u32, i: nat) -> u32
    decreases i,
{
    if i == 0 {
        limit
    } else {
        limit_after(doubled_limit(limit), (i - 1) as nat)
    }
}

/// Each recorded round holds the root's proof number and disproof number
/// as the search of that round returned them, a round that gave no answer.
pub proof fn lemma_rounds_record_root_numbers(b: Board, player: Piece, limit: u32, nodes: u64, i: nat)
    requires
        i < deepening(b, player, limit, nodes).2.len(),
    ensures
        search_answer(b, player, true, limit_after(limit, i), limit_after(limit, i)).0 is None,
        deepening(b, player, limit, nodes).2[i as int].1 == search_answer(
            b,
            player,
            true,
            limit_after(limit, i),
            limit_after(limit, i),
        ).1,
        deepening(b, player, limit, nodes).2[i as int].2 == search_answer(
            b,
            player,
            true,
            limit_after(limit, i),
            limit_after(limit, i),
        ).2,
    decreases INF - limit,
{
    let r = pn_search(b, player, true, limit, limit);
    let after = sat_add(nodes, r.3);
    if i > 0 {
        lemma_rounds_record_root_numbers(b, player, doubled_limit(limit), after, (i - 1) as nat);
    }
}

/// On an open position with at least two open columns, the first round
/// (threshold 1) gives no answer and is recorded as one visited node, root
/// proof number 1 and root disproof number the number of open columns.
pub proof fn lemma_first_round_recorded(b: Board, player: Piece)
    requires
        b.wf(),
        !settled_at_once(b, player),
        b.open_cols().len() >= 2,
    ensures
        deepening(b, player, 1, 0).2.len() >= 1,
        deepening(b, player, 1, 0).2[0] == (1u64, 1u32, b.open_cols().len() as u32),
{
    lemma_first_round_cutoff(b, player, 1, 1);
}

} // verus!
