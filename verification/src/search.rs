//! The search for a move: minimax with alpha-beta pruning and a memo of
//! positions already valued.

use vstd::prelude::*;
use std::collections::HashMap;
use rand::Rng;
use crate::board::{law_undo_restores, law_unpass_restores, origin, Action, Board};
use crate::game_state::{GameState, Move, MAX_PLIES};
use crate::hex_coord::HexCoord;

verus! {

/// How many plies below a root move the search looks.
pub const MAX_DEPTH: usize = 6;

/// From this ply on a valued position is kept in the memo.
pub const MEMO_FROM: usize = 7;

/// The value of a score to the search: the greatest value where the first
/// player has won, the least where the second has, zero where both have, and
/// else the score itself.
pub open spec fn worth(score: (isize, bool, bool)) -> isize {
    if score.1 && score.2 {
        0
    } else if score.1 {
        isize::MAX
    } else if score.2 {
        isize::MIN
    } else {
        score.0
    }
}

/// The value of a position as it stands.
pub open spec fn standing(b: Board) -> isize {
    worth((b.score().0 as isize, b.score().1, b.score().2))
}

/// What a search gives: the value, the memo as the search leaves it, and how
/// many nodes it has entered.
pub ghost struct Outcome {
    pub value: isize,
    pub memo: Map<u64, (isize, usize)>,
    pub nodes: nat,
}

/// A counter of nodes after `nodes` more, at 64 bits.
pub open spec fn counted(counter: u64, nodes: nat) -> u64 {
    ((counter + nodes) % 0x1_0000_0000_0000_0000) as u64
}

proof fn lemma_counted(counter: u64, a: nat, b: nat)
    ensures
        counted(counted(counter, a), b) == counted(counter, a + b),
        counted(counter, 0) == counter,
        counted(counter, 1) == counter.wrapping_add(1),
{
}

/// The greater of two values.
pub open spec fn greater(a: isize, b: isize) -> isize {
    if a >= b {
        a
    } else {
        b
    }
}

/// The lesser of two values.
pub open spec fn lesser(a: isize, b: isize) -> isize {
    if a <= b {
        a
    } else {
        b
    }
}

/// The value of the position `b`, searched from `depth` down to `max_depth`
/// within the window from `alpha` to `beta`.
///
/// A player without a move passes, and the search goes on from there. Else
/// the moves are tried in their order, each valued by `child_value`; the
/// first player takes the greatest value and the second the least.
pub open spec fn node_value(
    b: Board,
    depth: nat,
    max_depth: nat,
    alpha: isize,
    beta: isize,
    memo: Map<u64, (isize, usize)>,
) -> Outcome
    decreases max_depth - depth, 2int, 0int,
{
    let moves = b.moves();
    if moves.len() == 0 {
        let r = child_value(b.passed(), depth, max_depth, alpha, beta, memo);
        Outcome { nodes: r.nodes + 1, ..r }
    } else {
        let best = if b.turn() {
            isize::MIN
        } else {
            isize::MAX
        };
        let r = scan_value(b, moves, 0, depth, max_depth, best, alpha, beta, memo);
        Outcome { nodes: r.nodes + 1, ..r }
    }
}

/// The value of a position that a move or a pass has led to.
///
/// Where the memo holds the position with at least as many plies searched
/// below it as are left here, its value is taken from there. At `max_depth`
/// the position is valued as it stands. Else it is searched one ply deeper,
/// and kept in the memo if it lies after ply `MEMO_FROM`.
pub open spec fn child_value(
    c: Board,
    depth: nat,
    max_depth: nat,
    alpha: isize,
    beta: isize,
    memo: Map<u64, (isize, usize)>,
) -> Outcome
    decreases max_depth - depth, 0int, 0int,
{
    let hash = c.hash();
    if memo.contains_key(hash) && memo[hash].1 >= max_depth - depth {
        Outcome { value: memo[hash].0, memo, nodes: 0 }
    } else if depth >= max_depth {
        Outcome { value: standing(c), memo, nodes: 0 }
    } else {
        let r = node_value(c, depth + 1, max_depth, alpha, beta, memo);
        Outcome {
            value: r.value,
            memo: if c.plies > MEMO_FROM {
                r.memo.insert(hash, (r.value, (max_depth - depth) as usize))
            } else {
                r.memo
            },
            nodes: r.nodes,
        }
    }
}

/// The value of `b` once its moves from the `i`-th on are tried, where the
/// moves before have left `best`, `alpha`, `beta` and `memo`.
///
/// A move that wins for the player to move ends the scan with that value.
/// Else the value narrows the window on the mover's side, and the scan ends
/// as soon as the window is empty.
pub open spec fn scan_value(
    b: Board,
    moves: Seq<Action>,
    i: nat,
    depth: nat,
    max_depth: nat,
    best: isize,
    alpha: isize,
    beta: isize,
    memo: Map<u64, (isize, usize)>,
) -> Outcome
    decreases max_depth - depth, 1int, moves.len() - i,
{
    if i >= moves.len() {
        Outcome { value: best, memo, nodes: 0 }
    } else {
        let r = child_value(b.after(moves[i as int]), depth, max_depth, alpha, beta, memo);
        let sure = if b.turn() {
            isize::MAX
        } else {
            isize::MIN
        };
        if r.value == sure {
            r
        } else {
            let best = if b.turn() {
                greater(best, r.value)
            } else {
                lesser(best, r.value)
            };
            let alpha = if b.turn() {
                greater(alpha, r.value)
            } else {
                alpha
            };
            let beta = if b.turn() {
                beta
            } else {
                lesser(beta, r.value)
            };
            if beta <= alpha {
                Outcome { value: best, memo: r.memo, nodes: r.nodes }
            } else {
                let rest = scan_value(
                    b,
                    moves,
                    i + 1,
                    depth,
                    max_depth,
                    best,
                    alpha,
                    beta,
                    r.memo,
                );
                Outcome { nodes: r.nodes + rest.nodes, ..rest }
            }
        }
    }
}

/// The value of a score to the search.
pub fn get_score(score: (isize, bool, bool)) -> (value: isize)
    ensures
        value == worth(score),
{
    if score.1 && score.2 {
        return 0;
    }
    if score.1 {
        return isize::MAX;
    } else if score.2 {
        return isize::MIN;
    }
    score.0
}

/// Values the position that a move or a pass has just led to.
pub fn resolve(
    current_state: &mut GameState,
    depth: usize,
    max_depth: usize,
    alpha: isize,
    beta: isize,
    global_hash: &mut HashMap<u64, (isize, usize)>,
    counter: &mut u64,
) -> (value: isize)
    requires
        old(current_state).wf(),
        depth <= max_depth,
        old(current_state)@.plies + (max_depth - depth) <= MAX_PLIES,
    ensures
        final(current_state).wf(),
        final(current_state)@ == old(current_state)@,
        value == child_value(
            old(current_state)@,
            depth as nat,
            max_depth as nat,
            alpha,
            beta,
            old(global_hash)@,
        ).value,
        final(global_hash)@ == child_value(
            old(current_state)@,
            depth as nat,
            max_depth as nat,
            alpha,
            beta,
            old(global_hash)@,
        ).memo,
        *final(counter) == counted(
            *old(counter),
            child_value(
                old(current_state)@,
                depth as nat,
                max_depth as nat,
                alpha,
                beta,
                old(global_hash)@,
            ).nodes,
        ),
    decreases max_depth - depth, 0int, 0int,
{
    proof {
        lemma_counted(*counter, 0, 0);
    }
    let hash = current_state.get_hash();
    let known = match global_hash.get(&hash) {
        Some(found) => if found.1 >= max_depth - depth {
            Some(found.0)
        } else {
            None
        },
        None => None,
    };
    match known {
        Some(value) => value,
        None => {
            if depth == max_depth {
                // Evaluate board at final depth
                get_score(current_state.score())
            } else {
                let score = minimax(
                    current_state,
                    depth + 1,
                    max_depth,
                    alpha,
                    beta,
                    global_hash,
                    counter,
                );
                if current_state.turn_count() > MEMO_FROM {
                    global_hash.insert(hash, (score, max_depth - depth));
                }
                score
            }
        },
    }
}

/// Searches the position from `depth` down to `max_depth` and gives its
/// value. The state comes back as it was.
pub fn minimax(
    current_state: &mut GameState,
    depth: usize,
    max_depth: usize,
    alpha: isize,
    beta: isize,
    global_hash: &mut HashMap<u64, (isize, usize)>,
    counter: &mut u64,
) -> (value: isize)
    requires
        old(current_state).wf(),
        depth <= max_depth,
        old(current_state)@.plies + (max_depth - depth) + 1 <= MAX_PLIES,
    ensures
        final(current_state).wf(),
        final(current_state)@ == old(current_state)@,
        value == node_value(
            old(current_state)@,
            depth as nat,
            max_depth as nat,
            alpha,
            beta,
            old(global_hash)@,
        ).value,
        final(global_hash)@ == node_value(
            old(current_state)@,
            depth as nat,
            max_depth as nat,
            alpha,
            beta,
            old(global_hash)@,
        ).memo,
        *final(counter) == counted(
            *old(counter),
            node_value(
                old(current_state)@,
                depth as nat,
                max_depth as nat,
                alpha,
                beta,
                old(global_hash)@,
            ).nodes,
        ),
    decreases max_depth - depth, 2int, 0int,
{
    let ghost b = current_state@;
    let ghost memo0 = global_hash@;
    let ghost counter0 = *counter;
    proof {
        current_state.lemma_wf();
        lemma_counted(counter0, 1, 0);
    }
    *counter = counter.wrapping_add(1);
    let turn = current_state.turn();
    let moves = current_state.get_possible_moves();

    if moves.len() == 0 {
        proof {
            law_unpass_restores(b);
        }
        current_state.pass();
        let ghost r = child_value(b.passed(), depth as nat, max_depth as nat, alpha, beta, memo0);
        let score = resolve(current_state, depth, max_depth, alpha, beta, global_hash, counter);
        current_state.unpass();
        proof {
            lemma_counted(counter0, 1, r.nodes);
        }
        return score;
    }
    let ghost list = moves.deep_view();
    let ghost whole = scan_value(
        b,
        list,
        0,
        depth as nat,
        max_depth as nat,
        if turn {
            isize::MIN
        } else {
            isize::MAX
        },
        alpha,
        beta,
        memo0,
    );
    let mut best = if turn {
        isize::MIN
    } else {
        isize::MAX
    };
    let mut low = alpha;
    let mut high = beta;
    let ghost mut seen: nat = 0;
    let mut i: usize = 0;
    while i < moves.len()
        invariant
            i <= moves.len(),
            depth <= max_depth,
            b.plies + (max_depth - depth) + 1 <= MAX_PLIES,
            current_state.wf(),
            current_state@ == b,
            b.wf(),
            turn == b.turn(),
            list == moves.deep_view(),
            b.lists(list),
            list == b.moves(),
            list.len() > 0,
            b == old(current_state)@,
            memo0 == old(global_hash)@,
            counter0 == *old(counter),
            whole == scan_value(
                b,
                list,
                0,
                depth as nat,
                max_depth as nat,
                if turn {
                    isize::MIN
                } else {
                    isize::MAX
                },
                alpha,
                beta,
                memo0,
            ),
            *counter == counted(counter0, 1 + seen),
            whole.value == scan_value(
                b,
                list,
                i as nat,
                depth as nat,
                max_depth as nat,
                best,
                low,
                high,
                global_hash@,
            ).value,
            whole.memo == scan_value(
                b,
                list,
                i as nat,
                depth as nat,
                max_depth as nat,
                best,
                low,
                high,
                global_hash@,
            ).memo,
            whole.nodes == seen + scan_value(
                b,
                list,
                i as nat,
                depth as nat,
                max_depth as nat,
                best,
                low,
                high,
                global_hash@,
            ).nodes,
        decreases moves.len() - i,
    {
        let m = moves[i];
        let ghost r = child_value(
            b.after(m@),
            depth as nat,
            max_depth as nat,
            low,
            high,
            global_hash@,
        );
        proof {
            assert(list[i as int] == m@);
            assert(list.contains(m@));
            b.lemma_legal_admits(m@);
            law_undo_restores(b, m@);
            lemma_counted(counter0, 1 + seen, r.nodes);
        }
        current_state.apply_move(m);
        let score = resolve(current_state, depth, max_depth, low, high, global_hash, counter);
        current_state.undo_move(m);
        proof {
            seen = seen + r.nodes;
        }
        if turn {
            if score == isize::MAX {
                return score;
            }
            best = if best >= score {
                best
            } else {
                score
            };
            low = if low >= score {
                low
            } else {
                score
            };
        } else {
            if score == isize::MIN {
                return score;
            }
            best = if best <= score {
                best
            } else {
                score
            };
            high = if high <= score {
                high
            } else {
                score
            };
        }
        if high <= low {
            return best;
        }
        i += 1;
    }
    best
}

/// What the choice among the moves of a position gives: the best value, the
/// move that has it, the memo as the search leaves it, and how many nodes it
/// has entered.
pub ghost struct Picked {
    pub value: isize,
    pub action: Action,
    pub memo: Map<u64, (isize, usize)>,
    pub nodes: nat,
}

/// The choice among the moves of `b` from the `i`-th on, where the moves
/// before have left `best` as the best value, `current` as the move that has
/// it, and `memo`.
///
/// Each move is made and the position searched, within the window that the
/// best value so far leaves; the position is kept in the memo if it lies
/// after ply `MEMO_FROM`. A value as good as the best replaces it, so of two
/// equal moves the later is taken.
pub open spec fn pick(
    b: Board,
    moves: Seq<Action>,
    i: nat,
    max_depth: nat,
    best: isize,
    current: Action,
    memo: Map<u64, (isize, usize)>,
) -> Picked
    decreases moves.len() - i,
{
    if i >= moves.len() {
        Picked { value: best, action: current, memo, nodes: 0 }
    } else {
        let m = moves[i as int];
        let c = b.after(m);
        let r = if b.turn() {
            node_value(c, 0, max_depth, best, isize::MAX, memo)
        } else {
            node_value(c, 0, max_depth, isize::MIN, best, memo)
        };
        let memo = if c.plies > MEMO_FROM {
            r.memo.insert(c.hash(), (r.value, (max_depth + 1) as usize))
        } else {
            r.memo
        };
        let better = if b.turn() {
            r.value >= best
        } else {
            r.value <= best
        };
        let rest = pick(
            b,
            moves,
            i + 1,
            max_depth,
            if better {
                r.value
            } else {
                best
            },
            if better {
                m
            } else {
                current
            },
            memo,
        );
        Picked { nodes: r.nodes + rest.nodes, ..rest }
    }
}

/// The value that any other is at least as good as, for the player to move.
pub open spec fn worst(turn: bool) -> isize {
    if turn {
        isize::MIN
    } else {
        isize::MAX
    }
}

/// The move that the search chooses in `b`.
pub open spec fn choice(b: Board, max_depth: nat, memo: Map<u64, (isize, usize)>) -> Picked {
    pick(b, b.moves(), 0, max_depth, worst(b.turn()), Action::Move(origin(), origin()), memo)
}

/// Chooses among the moves of the position by searching below each. The
/// state comes back as it was.
pub fn select_best(
    game_state: &mut GameState,
    moves: &Vec<Move>,
    max_depth: usize,
    global_hash: &mut HashMap<u64, (isize, usize)>,
    counter: &mut u64,
) -> (best: (isize, Move))
    requires
        old(game_state).wf(),
        old(game_state)@.lists(moves.deep_view()),
        moves.len() > 0,
        old(game_state)@.plies + max_depth + 2 <= MAX_PLIES,
    ensures
        final(game_state).wf(),
        final(game_state)@ == old(game_state)@,
        best.0 == choice(old(game_state)@, max_depth as nat, old(global_hash)@).value,
        best.1@ == choice(old(game_state)@, max_depth as nat, old(global_hash)@).action,
        final(global_hash)@ == choice(old(game_state)@, max_depth as nat, old(global_hash)@).memo,
        *final(counter) == counted(
            *old(counter),
            choice(old(game_state)@, max_depth as nat, old(global_hash)@).nodes,
        ),
        moves.deep_view().contains(best.1@),
{
    let ghost b = game_state@;
    let ghost list = moves.deep_view();
    let ghost whole = choice(b, max_depth as nat, global_hash@);
    let ghost counter0 = *counter;
    let ghost mut seen: nat = 0;
    proof {
        game_state.lemma_wf();
        lemma_counted(counter0, 0, 0);
        b.lemma_moves(list);
    }
    let turn = game_state.turn();
    let mut best_score = if turn {
        isize::MIN
    } else {
        isize::MAX
    };
    // The move that stands here is replaced by the first one examined.
    let mut current_m = Move::Move(HexCoord::new(0, 0), HexCoord::new(0, 0));
    let mut i: usize = 0;
    while i < moves.len()
        invariant
            i <= moves.len(),
            game_state.wf(),
            game_state@ == b,
            b.wf(),
            b.plies + max_depth + 2 <= MAX_PLIES,
            turn == b.turn(),
            list == moves.deep_view(),
            b.lists(list),
            i > 0 ==> list.contains(current_m@),
            i == 0 ==> best_score == worst(turn),
            *counter == counted(counter0, seen),
            whole.value == pick(
                b,
                list,
                i as nat,
                max_depth as nat,
                best_score,
                current_m@,
                global_hash@,
            ).value,
            whole.action == pick(
                b,
                list,
                i as nat,
                max_depth as nat,
                best_score,
                current_m@,
                global_hash@,
            ).action,
            whole.memo == pick(
                b,
                list,
                i as nat,
                max_depth as nat,
                best_score,
                current_m@,
                global_hash@,
            ).memo,
            whole.nodes == seen + pick(
                b,
                list,
                i as nat,
                max_depth as nat,
                best_score,
                current_m@,
                global_hash@,
            ).nodes,
        decreases moves.len() - i,
    {
        let m = moves[i];
        let ghost c = b.after(m@);
        let ghost r = if turn {
            node_value(c, 0, max_depth as nat, best_score, isize::MAX, global_hash@)
        } else {
            node_value(c, 0, max_depth as nat, isize::MIN, best_score, global_hash@)
        };
        proof {
            assert(list[i as int] == m@);
            assert(list.contains(m@));
            b.lemma_legal_admits(m@);
            law_undo_restores(b, m@);
            lemma_counted(counter0, seen, r.nodes);
        }
        game_state.apply_move(m);

        let score = if turn {
            minimax(game_state, 0, max_depth, best_score, isize::MAX, global_hash, counter)
        } else {
            minimax(game_state, 0, max_depth, isize::MIN, best_score, global_hash, counter)
        };
        if game_state.turn_count() > MEMO_FROM {
            let hash = game_state.get_hash();
            global_hash.insert(hash, (score, max_depth + 1));
        }
        game_state.undo_move(m);
        proof {
            seen = seen + r.nodes;
        }
        // A value as good as the best is taken, so that the first move
        // examined replaces the one that stood in for it.
        if (turn && score >= best_score) || (!turn && score <= best_score) {
            best_score = score;
            current_m = m;
        }
        i += 1;
    }
    (best_score, current_m)
}

/// `Rng::gen_range` of rand, on the generator of `thread_rng` and the range
/// from 0 up to `len`: some index below `len`. It does not return where the
/// range is empty.
#[verifier::external_body]
fn random_index(len: usize) -> (index: usize)
    requires
        len > 0,
    ensures
        index < len,
{
    rand::thread_rng().gen_range(0..len)
}

/// Makes the `index`-th of the moves.
pub fn play_nth(game_state: &mut GameState, moves: &Vec<Move>, index: usize) -> (played: Move)
    requires
        old(game_state).wf(),
        old(game_state)@.plies < MAX_PLIES,
        old(game_state)@.lists(moves.deep_view()),
        index < moves.len(),
    ensures
        final(game_state).wf(),
        played@ == old(game_state)@.moves()[index as int],
        final(game_state)@ == old(game_state)@.after(played@),
{
    let m = moves[index];
    proof {
        game_state.lemma_wf();
        game_state@.lemma_moves(moves.deep_view());
        assert(moves.deep_view()[index as int] == m@);
        assert(moves.deep_view().contains(m@));
        game_state@.lemma_legal_admits(m@);
    }
    game_state.apply_move(m);
    m
}

/// What a player's turn has come to.
#[derive(Clone, Copy, Debug, PartialEq, Eq)]
pub enum Selection {
    /// There was no move, and the player has passed.
    Passed,
    /// The player has made this move, drawn by lot.
    Random(Move),
    /// The player has made this move, found by a search that entered so many
    /// nodes.
    Searched { chosen: Move, searched: u64 },
}

/// Lets the player to move take its turn by search: it passes where there is
/// no move, and else makes the move that a search `MAX_DEPTH` plies deep
/// chooses, the best for its side and of equal ones the last.
pub fn computer_select(
    game_state: &mut GameState,
    global_hash: &mut HashMap<u64, (isize, usize)>,
) -> (done: Selection)
    requires
        old(game_state).wf(),
        old(game_state)@.plies + MAX_DEPTH + 2 <= MAX_PLIES,
    ensures
        final(game_state).wf(),
        done is Passed <==> old(game_state)@.moves().len() == 0,
        match done {
            Selection::Passed => {
                &&& final(game_state)@ == old(game_state)@.passed()
                &&& final(global_hash)@ == old(global_hash)@
            },
            Selection::Random(m) => false,
            Selection::Searched { chosen, searched } => {
                let found = choice(old(game_state)@, MAX_DEPTH as nat, old(global_hash)@);
                &&& old(game_state)@.legal(chosen@)
                &&& chosen@ == found.action
                &&& final(game_state)@ == old(game_state)@.after(found.action)
                &&& final(global_hash)@ == found.memo
                &&& searched == counted(0, found.nodes)
            },
        },
{
    let moves = game_state.get_possible_moves();
    if moves.len() == 0 {
        game_state.pass();
        return Selection::Passed;
    }
    let mut counter: u64 = 0;
    let best_move = select_best(game_state, &moves, MAX_DEPTH, global_hash, &mut counter).1;
    proof {
        game_state.lemma_wf();
        game_state@.lemma_legal_admits(best_move@);
    }
    game_state.apply_move(best_move);
    Selection::Searched { chosen: best_move, searched: counter }
}

/// Lets the player to move take its turn by lot: it passes where there is no
/// move, and else makes one of the legal moves, whichever the draw gives.
pub fn random_select(game_state: &mut GameState) -> (done: Selection)
    requires
        old(game_state).wf(),
        old(game_state)@.plies < MAX_PLIES,
    ensures
        final(game_state).wf(),
        done is Passed <==> old(game_state)@.moves().len() == 0,
        match done {
            Selection::Passed => final(game_state)@ == old(game_state)@.passed(),
            Selection::Random(m) => {
                &&& old(game_state)@.legal(m@)
                &&& final(game_state)@ == old(game_state)@.after(m@)
            },
            Selection::Searched { chosen, searched } => false,
        },
{
    let moves = game_state.get_possible_moves();
    if moves.len() == 0 {
        game_state.pass();
        return Selection::Passed;
    }
    let len = moves.len();
    let played = play_nth(game_state, &moves, random_index(len));
    Selection::Random(played)
}

} // verus!
