//! What pruning leaves untouched: the value of the search, compared with the
//! plain minimax value of a position.

use vstd::prelude::*;
use crate::board::{Action, Board};
use crate::search::{
    child_value, greater, lesser, node_value, scan_value, standing, worst, MEMO_FROM,
};

verus! {

/// The minimax value of the position `b`, from `depth` down to `max_depth`:
/// every move is tried, nothing is pruned and nothing remembered.
pub open spec fn plain_node(b: Board, depth: nat, max_depth: nat) -> isize
    decreases max_depth - depth, 2int, 0int,
{
    let moves = b.moves();
    if moves.len() == 0 {
        plain_child(b.passed(), depth, max_depth)
    } else {
        plain_scan(b, moves, 0, depth, max_depth, worst(b.turn()))
    }
}

/// The minimax value of a position that a move or a pass has led to.
pub open spec fn plain_child(c: Board, depth: nat, max_depth: nat) -> isize
    decreases max_depth - depth, 0int, 0int,
{
    if depth >= max_depth {
        standing(c)
    } else {
        plain_node(c, depth + 1, max_depth)
    }
}

/// The best of `best` and of the minimax values of the moves from the `i`-th
/// on, for the player to move.
pub open spec fn plain_scan(
    b: Board,
    moves: Seq<Action>,
    i: nat,
    depth: nat,
    max_depth: nat,
    best: isize,
) -> isize
    decreases max_depth - depth, 1int, moves.len() - i,
{
    if i >= moves.len() {
        best
    } else {
        let value = plain_child(b.after(moves[i as int]), depth, max_depth);
        plain_scan(
            b,
            moves,
            i + 1,
            depth,
            max_depth,
            if b.turn() {
                greater(best, value)
            } else {
                lesser(best, value)
            },
        )
    }
}

/// What a search within the window from `alpha` to `beta` says of the true
/// value: a value inside the window is the true one; a value at or below
/// `alpha` stands for a true value no greater, and one at or above `beta`
/// for a true value no less.
pub open spec fn within_window(value: isize, truth: isize, alpha: isize, beta: isize) -> bool {
    &&& truth <= alpha ==> truth <= value <= alpha
    &&& truth >= beta ==> beta <= value <= truth
    &&& alpha < truth < beta ==> value == truth
}

/// The search keeps nothing in the memo: the positions that it searches
/// below, which are those it would keep, lie no later than ply `MEMO_FROM`.
/// At the depth bound it searches below none.
pub open spec fn in_opening(b: Board, depth: nat, max_depth: nat) -> bool {
    depth <= max_depth && (depth == max_depth || b.plies + (max_depth - depth) <= MEMO_FROM)
}

/// The position `c`, which a move or a pass has led to, is valued without
/// anything being kept in the memo.
pub open spec fn child_in_opening(c: Board, depth: nat, max_depth: nat) -> bool {
    depth <= max_depth && (depth == max_depth || c.plies + (max_depth - depth) <= MEMO_FROM + 1)
}

/// The best value only gets better for the player to move.
proof fn lemma_plain_scan(
    b: Board,
    moves: Seq<Action>,
    i: nat,
    depth: nat,
    max_depth: nat,
    best: isize,
)
    ensures
        b.turn() ==> plain_scan(b, moves, i, depth, max_depth, best) >= best,
        !b.turn() ==> plain_scan(b, moves, i, depth, max_depth, best) <= best,
    decreases moves.len() - i,
{
    if i < moves.len() {
        let value = plain_child(b.after(moves[i as int]), depth, max_depth);
        lemma_plain_scan(
            b,
            moves,
            i + 1,
            depth,
            max_depth,
            if b.turn() {
                greater(best, value)
            } else {
                lesser(best, value)
            },
        );
    }
}

proof fn lemma_node(b: Board, depth: nat, max_depth: nat, alpha: isize, beta: isize)
    requires
        in_opening(b, depth, max_depth),
        alpha < beta,
    ensures
        node_value(b, depth, max_depth, alpha, beta, Map::empty()).memo == Map::<
            u64,
            (isize, usize),
        >::empty(),
        within_window(
            node_value(b, depth, max_depth, alpha, beta, Map::empty()).value,
            plain_node(b, depth, max_depth),
            alpha,
            beta,
        ),
    decreases max_depth - depth, 2int, 0int,
{
    let moves = b.moves();
    if moves.len() == 0 {
        lemma_child(b.passed(), depth, max_depth, alpha, beta);
    } else {
        let best = worst(b.turn());
        lemma_scan(b, moves, 0, depth, max_depth, best, best, alpha, beta, alpha, beta);
    }
}

proof fn lemma_child(c: Board, depth: nat, max_depth: nat, alpha: isize, beta: isize)
    requires
        child_in_opening(c, depth, max_depth),
        alpha < beta,
    ensures
        child_value(c, depth, max_depth, alpha, beta, Map::empty()).memo == Map::<
            u64,
            (isize, usize),
        >::empty(),
        within_window(
            child_value(c, depth, max_depth, alpha, beta, Map::empty()).value,
            plain_child(c, depth, max_depth),
            alpha,
            beta,
        ),
    decreases max_depth - depth, 0int, 0int,
{
    if depth < max_depth {
        lemma_node(c, depth + 1, max_depth, alpha, beta);
    }
}

proof fn lemma_scan(
    b: Board,
    moves: Seq<Action>,
    i: nat,
    depth: nat,
    max_depth: nat,
    best: isize,
    true_best: isize,
    alpha: isize,
    beta: isize,
    alpha0: isize,
    beta0: isize,
)
    requires
        in_opening(b, depth, max_depth),
        alpha < beta,
        alpha0 < beta0,
        b.turn() ==> beta == beta0 && alpha == greater(alpha0, best) && alpha == greater(
            alpha0,
            true_best,
        ) && best >= true_best,
        !b.turn() ==> alpha == alpha0 && beta == lesser(beta0, best) && beta == lesser(
            beta0,
            true_best,
        ) && best <= true_best,
    ensures
        scan_value(b, moves, i, depth, max_depth, best, alpha, beta, Map::empty()).memo == Map::<
            u64,
            (isize, usize),
        >::empty(),
        within_window(
            scan_value(b, moves, i, depth, max_depth, best, alpha, beta, Map::empty()).value,
            plain_scan(b, moves, i, depth, max_depth, true_best),
            alpha0,
            beta0,
        ),
    decreases max_depth - depth, 1int, moves.len() - i,
{
    if i < moves.len() {
        let c = b.after(moves[i as int]);
        let r = child_value(c, depth, max_depth, alpha, beta, Map::empty());
        let truth = plain_child(c, depth, max_depth);
        lemma_child(c, depth, max_depth, alpha, beta);
        let next_true = if b.turn() {
            greater(true_best, truth)
        } else {
            lesser(true_best, truth)
        };
        lemma_plain_scan(b, moves, i + 1, depth, max_depth, next_true);
        let sure = if b.turn() {
            isize::MAX
        } else {
            isize::MIN
        };
        if r.value != sure {
            let next_best = if b.turn() {
                greater(best, r.value)
            } else {
                lesser(best, r.value)
            };
            let next_alpha = if b.turn() {
                greater(alpha, r.value)
            } else {
                alpha
            };
            let next_beta = if b.turn() {
                beta
            } else {
                lesser(beta, r.value)
            };
            if next_alpha < next_beta {
                lemma_scan(
                    b,
                    moves,
                    i + 1,
                    depth,
                    max_depth,
                    next_best,
                    next_true,
                    next_alpha,
                    next_beta,
                    alpha0,
                    beta0,
                );
            }
        }
    }
}

/// Pruning leaves the value as it is. While the search stays within the
/// plies of which nothing is kept, and starts with an empty memo, what it
/// gives within a window stands for the minimax value as `within_window`
/// says, and the memo stays empty.
pub proof fn law_pruning_keeps_the_value(
    b: Board,
    depth: nat,
    max_depth: nat,
    alpha: isize,
    beta: isize,
)
    requires
        in_opening(b, depth, max_depth),
        alpha < beta,
    ensures
        node_value(b, depth, max_depth, alpha, beta, Map::empty()).memo == Map::<
            u64,
            (isize, usize),
        >::empty(),
        within_window(
            node_value(b, depth, max_depth, alpha, beta, Map::empty()).value,
            plain_node(b, depth, max_depth),
            alpha,
            beta,
        ),
{
    lemma_node(b, depth, max_depth, alpha, beta);
}

/// With the widest window the search gives the minimax value itself, while
/// it stays within the plies of which nothing is kept in the memo.
pub proof fn law_search_gives_minimax(b: Board, depth: nat, max_depth: nat)
    requires
        in_opening(b, depth, max_depth),
    ensures
        node_value(b, depth, max_depth, isize::MIN, isize::MAX, Map::empty()).value == plain_node(
            b,
            depth,
            max_depth,
        ),
{
    lemma_node(b, depth, max_depth, isize::MIN, isize::MAX);
}

} // verus!
