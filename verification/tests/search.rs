use std::collections::HashMap;

use hive::game_state::{GameState, Move};
use hive::hex_coord::HexCoord;
use hive::search::{
    computer_select, get_score, minimax, play_nth, random_select, resolve, select_best, Selection,
    MAX_DEPTH, MEMO_FROM,
};
use hive::tile_types::TileType;

fn at(x: isize, y: isize) -> HexCoord {
    HexCoord::new(x, y)
}

fn place(kind: TileType, x: isize, y: isize) -> Move {
    Move::Place(kind, at(x, y))
}

fn slide(from: (isize, isize), to: (isize, isize)) -> Move {
    Move::Move(at(from.0, from.1), at(to.0, to.1))
}

fn played(moves: &[Move]) -> GameState {
    let mut state = GameState::new();
    for m in moves {
        state.apply_move(*m);
    }
    state
}

/// The value of the position that a move or a pass has led to, with nothing
/// pruned and nothing remembered.
fn plain_child(state: &mut GameState, depth: usize, max_depth: usize) -> isize {
    if depth == max_depth {
        get_score(state.score())
    } else {
        plain_node(state, depth + 1, max_depth)
    }
}

/// The value of the position, with nothing pruned and nothing remembered.
fn plain_node(state: &mut GameState, depth: usize, max_depth: usize) -> isize {
    let moves = state.get_possible_moves();
    if moves.is_empty() {
        state.pass();
        let value = plain_child(state, depth, max_depth);
        state.unpass();
        return value;
    }
    let turn = state.turn();
    let mut best = if turn { isize::MIN } else { isize::MAX };
    for m in moves {
        state.apply_move(m);
        let value = plain_child(state, depth, max_depth);
        state.undo_move(m);
        best = if turn { best.max(value) } else { best.min(value) };
    }
    best
}

/// A position of the first plies, reached by taking the `pick`-th move each time.
fn early_position(plies: usize, pick: usize) -> GameState {
    let mut state = GameState::new();
    for ply in 0..plies {
        let moves = state.get_possible_moves();
        if moves.is_empty() {
            state.pass();
        } else {
            state.apply_move(moves[(pick + ply * 3) % moves.len()]);
        }
    }
    state
}

#[test]
fn a_win_is_worth_the_extreme() {
    assert_eq!(get_score((3, true, false)), isize::MAX);
    assert_eq!(get_score((-5, false, true)), isize::MIN);
}

#[test]
fn a_draw_is_worth_nothing() {
    assert_eq!(get_score((4, true, true)), 0);
    assert_eq!(get_score((0, true, true)), 0);
}

#[test]
fn an_open_game_is_worth_its_score() {
    assert_eq!(get_score((3, false, false)), 3);
    assert_eq!(get_score((-2, false, false)), -2);
    assert_eq!(get_score((0, false, false)), 0);
}

#[test]
fn pruning_does_not_change_the_value() {
    for plies in 0..5 {
        for pick in 0..4 {
            for max_depth in 0..3 {
                if max_depth > 0 && plies + max_depth > MEMO_FROM {
                    continue;
                }
                let mut state = early_position(plies, pick);
                let before = state.clone();
                let expected = plain_node(&mut state, 0, max_depth);
                let mut memo = HashMap::new();
                let mut counter = 0;
                let value = minimax(
                    &mut state,
                    0,
                    max_depth,
                    isize::MIN,
                    isize::MAX,
                    &mut memo,
                    &mut counter,
                );
                assert_eq!(value, expected);
                assert!(state.same_position(&before));
                assert!(memo.is_empty());
                assert!(counter >= 1);
            }
        }
    }
}

#[test]
fn pruning_does_not_change_the_value_of_a_hand_built_board() {
    // the first queen has four neighbours, the second two
    let mut state = played(&[
        place(TileType::Queen, 0, 0),
        place(TileType::Queen, 1, 0),
        place(TileType::Ant, -1, 0),
        place(TileType::Ant, 0, 1),
        place(TileType::Ant, 0, -1),
    ]);
    assert_eq!(state.score(), (2 - 4, false, false));
    for max_depth in 0..2 {
        let expected = plain_node(&mut state, 0, max_depth);
        let mut memo = HashMap::new();
        let mut counter = 0;
        let value =
            minimax(&mut state, 0, max_depth, isize::MIN, isize::MAX, &mut memo, &mut counter);
        assert_eq!(value, expected);
    }
}

#[test]
fn the_search_sees_a_win_in_one() {
    // five tiles round the first queen, and the second player to move
    let mut state = played(&[
        place(TileType::Queen, 0, 0),
        place(TileType::Queen, 1, 0),
        place(TileType::Ant, -1, 0),
        place(TileType::Ant, 0, 1),
        place(TileType::Ant, 0, -1),
        place(TileType::Ant, 2, -1),
        place(TileType::Ant, -1, 1),
    ]);
    assert!(!state.turn());
    assert_eq!(state.score().0, 3 - 5);
    // the ant at (2, -1) can walk to (1, -1), the last free cell beside her
    assert!(state.get_possible_moves().contains(&slide((2, -1), (1, -1))));
    let mut memo = HashMap::new();
    let mut counter = 0;
    let value = minimax(&mut state, 0, 0, isize::MIN, isize::MAX, &mut memo, &mut counter);
    assert_eq!(value, isize::MIN);
    assert_eq!(counter, 1);
}

#[test]
fn a_search_of_no_depth_values_the_moves_as_they_stand() {
    let mut state = played(&[place(TileType::Queen, 0, 0), place(TileType::Queen, 1, 0)]);
    let mut memo = HashMap::new();
    let mut counter = 7;
    // an ant beside the own queen is the worst for the first player; a slide of
    // the queen leaves both queens with one neighbour
    let value = minimax(&mut state, 0, 0, isize::MIN, isize::MAX, &mut memo, &mut counter);
    assert_eq!(value, 0);
    assert_eq!(counter, 8);
    assert!(memo.is_empty());
}

#[test]
fn the_counter_counts_the_nodes_entered() {
    let mut state = played(&[place(TileType::Queen, 0, 0), place(TileType::Queen, 1, 0)]);
    let moves = state.get_possible_moves().len() as u64;
    let mut memo = HashMap::new();
    let mut counter = 0;
    minimax(&mut state, 0, 1, isize::MIN, isize::MAX, &mut memo, &mut counter);
    // the node itself and one for each of its moves
    assert_eq!(counter, 1 + moves);
}

#[test]
fn the_counter_wraps_round() {
    let mut state = GameState::new();
    let mut memo = HashMap::new();
    let mut counter = u64::MAX;
    minimax(&mut state, 0, 0, isize::MIN, isize::MAX, &mut memo, &mut counter);
    assert_eq!(counter, 0);
}

#[test]
fn a_player_without_a_move_passes_in_the_search() {
    let mut state = played(&[place(TileType::Ant, 0, 0), place(TileType::Queen, 1, 0)]);
    state.pass();
    state.apply_move(place(TileType::Ant, -1, 0));
    assert!(state.get_possible_moves().is_empty());
    let before = state.clone();
    let mut memo = HashMap::new();
    let mut counter = 0;
    let value = minimax(&mut state, 0, 0, isize::MIN, isize::MAX, &mut memo, &mut counter);
    // the position after the pass is valued as it stands: the second queen
    // has one neighbour, the first counts as one
    assert_eq!(value, 0);
    assert_eq!(counter, 1);
    assert!(state.same_position(&before));
    let value = minimax(&mut state, 0, 1, isize::MIN, isize::MAX, &mut memo, &mut counter);
    assert_eq!(value, plain_node(&mut state, 0, 1));
    assert!(state.same_position(&before));
}

#[test]
fn positions_after_the_opening_are_remembered() {
    let mut state = early_position(MEMO_FROM, 1);
    assert_eq!(state.turn_count(), MEMO_FROM);
    let moves = state.get_possible_moves();
    assert!(!moves.is_empty());
    let mut memo = HashMap::new();
    let mut counter = 0;
    let value = minimax(&mut state, 0, 1, isize::MIN, isize::MAX, &mut memo, &mut counter);
    // each move leads to a position after the opening, searched one ply deep
    assert!(!memo.is_empty());
    assert!(memo.len() <= moves.len());
    for (_, entry) in memo.iter() {
        assert_eq!(entry.1, 1);
    }
    let first = moves[0];
    state.apply_move(first);
    assert!(memo.contains_key(&state.get_hash()));
    state.undo_move(first);
    // searched again, every move is found in the memo
    let mut again = 0;
    let second = minimax(&mut state, 0, 1, isize::MIN, isize::MAX, &mut memo, &mut again);
    assert_eq!(second, value);
    assert_eq!(again, 1);
}

#[test]
fn positions_of_the_opening_are_not_remembered() {
    let mut state = early_position(MEMO_FROM - 1, 2);
    let mut memo = HashMap::new();
    let mut counter = 0;
    minimax(&mut state, 0, 0, isize::MIN, isize::MAX, &mut memo, &mut counter);
    assert!(memo.is_empty());
    let mut state = played(&[place(TileType::Queen, 0, 0)]);
    minimax(&mut state, 0, 2, isize::MIN, isize::MAX, &mut memo, &mut counter);
    assert!(memo.is_empty());
}

#[test]
fn a_remembered_value_is_taken_if_it_was_searched_deep_enough() {
    let mut state = played(&[place(TileType::Queen, 0, 0), place(TileType::Queen, 1, 0)]);
    let hash = state.get_hash();
    let mut memo = HashMap::new();
    memo.insert(hash, (42, 3));
    let mut counter = 0;
    // three plies are left to search, and three were searched
    let value = resolve(&mut state, 1, 4, isize::MIN, isize::MAX, &mut memo, &mut counter);
    assert_eq!(value, 42);
    assert_eq!(counter, 0);
    // two plies are left
    let value = resolve(&mut state, 2, 4, isize::MIN, isize::MAX, &mut memo, &mut counter);
    assert_eq!(value, 42);
    assert_eq!(memo.get(&hash), Some(&(42, 3)));
}

#[test]
fn a_remembered_value_is_passed_over_if_it_was_searched_too_shallow() {
    let mut state = played(&[place(TileType::Queen, 0, 0), place(TileType::Queen, 1, 0)]);
    let hash = state.get_hash();
    let mut memo = HashMap::new();
    memo.insert(hash, (42, 0));
    let mut counter = 0;
    // one ply is left to search
    let value = resolve(&mut state, 0, 1, isize::MIN, isize::MAX, &mut memo, &mut counter);
    assert_eq!(value, plain_child(&mut state, 0, 1));
    assert_ne!(value, 42);
    assert_eq!(counter, 1);
    // at the depth bound none is left, and the remembered value serves
    let value = resolve(&mut state, 1, 1, isize::MIN, isize::MAX, &mut memo, &mut counter);
    assert_eq!(value, 42);
}

#[test]
fn at_the_depth_bound_a_position_is_valued_as_it_stands() {
    let mut state = played(&[
        place(TileType::Queen, 0, 0),
        place(TileType::Queen, 1, 0),
        place(TileType::Ant, -1, 0),
    ]);
    let mut memo = HashMap::new();
    let mut counter = 0;
    let value = resolve(&mut state, 2, 2, isize::MIN, isize::MAX, &mut memo, &mut counter);
    assert_eq!(value, 1 - 2);
    assert_eq!(counter, 0);
    assert!(memo.is_empty());
}

#[test]
fn of_equal_moves_the_last_is_chosen() {
    let mut state = GameState::new();
    let moves = state.get_possible_moves();
    let mut memo = HashMap::new();
    let mut counter = 0;
    let (value, chosen) = select_best(&mut state, &moves, 0, &mut memo, &mut counter);
    assert_eq!(value, 0);
    assert_eq!(chosen, place(TileType::Ant, 0, 0));
    assert_eq!(chosen, moves[moves.len() - 1]);
    assert_eq!(counter, 2);
    assert!(state.same_position(&GameState::new()));
}

#[test]
fn the_chosen_value_is_the_best_for_the_mover() {
    for plies in 1..5 {
        for pick in 0..3 {
            let mut state = early_position(plies, pick);
            let moves = state.get_possible_moves();
            if moves.is_empty() {
                continue;
            }
            let turn = state.turn();
            let mut memo = HashMap::new();
            let mut counter = 0;
            let (value, chosen) = select_best(&mut state, &moves, 1, &mut memo, &mut counter);
            assert!(moves.contains(&chosen));
            // the value of each move by itself, nothing pruned
            let mut values = Vec::new();
            for m in &moves {
                state.apply_move(*m);
                values.push(plain_node(&mut state, 0, 1));
                state.undo_move(*m);
            }
            let best = if turn {
                *values.iter().max().unwrap()
            } else {
                *values.iter().min().unwrap()
            };
            assert_eq!(value, best);
            // the move itself is the last whose search came back with a value
            // as good as the best before it; below a narrowed window that
            // value is a bound, so the move need not be the best one
            let index = moves.iter().position(|m| *m == chosen).unwrap();
            if turn {
                assert!(values[index] <= best);
            } else {
                assert!(values[index] >= best);
            }
        }
    }
}

#[test]
fn the_choice_values_a_move_by_the_replies_to_it() {
    // the second player can surround the first queen at once
    let mut state = played(&[
        place(TileType::Queen, 0, 0),
        place(TileType::Queen, 1, 0),
        place(TileType::Ant, -1, 0),
        place(TileType::Ant, 0, 1),
        place(TileType::Ant, 0, -1),
        place(TileType::Ant, 2, -1),
        place(TileType::Ant, -1, 1),
    ]);
    let moves = state.get_possible_moves();
    let mut expected = isize::MAX;
    for m in &moves {
        state.apply_move(*m);
        expected = expected.min(plain_node(&mut state, 0, 0));
        state.undo_move(*m);
    }
    let mut memo = HashMap::new();
    let mut counter = 0;
    let (value, chosen) = select_best(&mut state, &moves, 0, &mut memo, &mut counter);
    assert_eq!(value, expected);
    assert!(moves.contains(&chosen));
    // a position is valued only at the depth bound: the first player answers
    // by taking an ant away from the queen, and the win is not seen
    assert_ne!(value, isize::MIN);
}

#[test]
fn play_nth_makes_the_move_with_that_number() {
    let mut state = played(&[place(TileType::Queen, 0, 0), place(TileType::Queen, 1, 0)]);
    let moves = state.get_possible_moves();
    let made = play_nth(&mut state, &moves, 3);
    assert_eq!(made, slide((0, 0), (0, 1)));
    assert_eq!(state.turn_count(), 3);
    assert!(state.tiles().contains_key(&at(0, 1)));
    assert!(!state.tiles().contains_key(&at(0, 0)));
}

#[test]
fn a_move_is_drawn_by_lot() {
    let mut seen = Vec::new();
    for _ in 0..64 {
        let mut state = played(&[place(TileType::Queen, 0, 0), place(TileType::Queen, 1, 0)]);
        let before = state.clone();
        let moves = state.get_possible_moves();
        match random_select(&mut state) {
            Selection::Random(m) => {
                assert!(moves.contains(&m));
                let mut expected = before.clone();
                expected.apply_move(m);
                assert!(state.same_position(&expected));
                if !seen.contains(&m) {
                    seen.push(m);
                }
            }
            other => panic!("{:?}", other),
        }
    }
    // with five moves to draw from, 64 draws do not all give the same
    assert!(seen.len() > 1);
}

#[test]
fn the_draw_serves_either_player() {
    let mut state = played(&[place(TileType::Queen, 0, 0)]);
    let moves = state.get_possible_moves();
    match random_select(&mut state) {
        Selection::Random(m) => assert!(moves.contains(&m)),
        other => panic!("{:?}", other),
    }
    assert_eq!(state.turn_count(), 2);
}

#[test]
fn a_player_without_a_move_passes() {
    let mut state = played(&[place(TileType::Ant, 0, 0), place(TileType::Queen, 1, 0)]);
    state.pass();
    state.apply_move(place(TileType::Ant, -1, 0));
    let before = state.clone();
    let mut memo = HashMap::new();
    assert_eq!(computer_select(&mut state, &mut memo), Selection::Passed);
    assert!(memo.is_empty());
    assert_eq!(state.turn_count(), 5);
    state.unpass();
    assert!(state.same_position(&before));
    assert_eq!(random_select(&mut state), Selection::Passed);
    assert_eq!(state.turn_count(), 5);
}

/// What `computer_select` is to do in the position, by the search itself.
fn searched_by_hand(before: &GameState) -> (Move, u64) {
    let mut state = before.clone();
    let moves = state.get_possible_moves();
    let mut memo = HashMap::new();
    let mut counter = 0;
    let (_, best) = select_best(&mut state, &moves, MAX_DEPTH, &mut memo, &mut counter);
    (best, counter)
}

#[test]
fn the_second_player_searches_for_its_move() {
    let mut state = played(&[place(TileType::Queen, 0, 0)]);
    let before = state.clone();
    let moves = state.get_possible_moves();
    let mut memo = HashMap::new();
    match computer_select(&mut state, &mut memo) {
        Selection::Searched { chosen, searched } => {
            assert!(moves.contains(&chosen));
            assert!(searched >= moves.len() as u64);
            let mut expected = before.clone();
            expected.apply_move(chosen);
            assert!(state.same_position(&expected));
            assert_eq!((chosen, searched), searched_by_hand(&before));
        }
        other => panic!("{:?}", other),
    }
}

#[test]
fn the_first_player_searches_for_its_move() {
    let mut state = GameState::new();
    let before = state.clone();
    let moves = state.get_possible_moves();
    let mut memo = HashMap::new();
    match computer_select(&mut state, &mut memo) {
        Selection::Searched { chosen, searched } => {
            assert!(moves.contains(&chosen));
            let mut expected = before.clone();
            expected.apply_move(chosen);
            assert!(state.same_position(&expected));
            assert_eq!((chosen, searched), searched_by_hand(&before));
        }
        other => panic!("{:?}", other),
    }
    // the same position gives the same move again: nothing is drawn
    let mut again = GameState::new();
    let mut memo = HashMap::new();
    let first = computer_select(&mut again, &mut memo);
    let mut third = GameState::new();
    let mut memo = HashMap::new();
    assert_eq!(computer_select(&mut third, &mut memo), first);
}
