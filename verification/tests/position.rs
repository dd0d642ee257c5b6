use std::collections::hash_map::DefaultHasher;
use std::hash::Hasher;

use hive::game_state::{GameState, Move, MAX_PLIES};
use hive::hex_coord::HexCoord;
use hive::tile_types::TileType;

fn at(x: isize, y: isize) -> HexCoord {
    HexCoord::new(x, y)
}

fn place(kind: TileType, x: isize, y: isize) -> Move {
    Move::Place(kind, at(x, y))
}

fn slide(from: (isize, isize), to: (isize, isize)) -> Move {
    Move::Move(at(from.0, from.1), at(to.0, to.1))
}

fn played(moves: &[Move]) -> GameState {
    let mut state = GameState::new();
    for m in moves {
        state.apply_move(*m);
    }
    state
}

/// The first player's queen at the origin with a tile on each cell around it.
fn first_queen_surrounded() -> GameState {
    played(&[
        place(TileType::Queen, 0, 0),
        place(TileType::Ant, 0, 1),
        place(TileType::Ant, -1, 1),
        place(TileType::Ant, 1, 0),
        place(TileType::Ant, 1, -1),
        place(TileType::Ant, 0, -1),
        place(TileType::Ant, -1, 0),
    ])
}

#[test]
fn a_new_game_is_empty() {
    let state = GameState::new();
    assert_eq!(state.turn_count(), 0);
    assert!(state.turn());
    assert_eq!(state.tiles().len(), 0);
    assert!(state.turn_piece_bag().has_queen());
    assert_eq!(state.turn_piece_bag().ants(), 6);
    assert_eq!(state.score(), (0, false, false));
    assert_eq!(state.get_square_bounds(), (-2, -1, 2, 1));
}

#[test]
fn placing_takes_from_the_bag_of_the_player_to_move() {
    let mut state = GameState::new();
    state.apply_move(place(TileType::Ant, 0, 0));
    assert_eq!(state.turn_count(), 1);
    assert!(!state.turn());
    // the second player's bag is still full
    assert_eq!(state.turn_piece_bag().ants(), 6);
    state.apply_move(place(TileType::Queen, 1, 0));
    assert_eq!(state.turn_count(), 2);
    // the first player has used an ant, and still holds the queen
    assert_eq!(state.turn_piece_bag().ants(), 5);
    assert!(state.turn_piece_bag().has_queen());
    state.pass();
    assert!(!state.turn_piece_bag().has_queen());
    assert_eq!(state.turn_piece_bag().ants(), 6);
    let tile = state.tiles().get(&at(0, 0)).unwrap();
    assert_eq!((*tile.team(), *tile.tile_type()), (true, TileType::Ant));
    let tile = state.tiles().get(&at(1, 0)).unwrap();
    assert_eq!((*tile.team(), *tile.tile_type()), (false, TileType::Queen));
}

#[test]
fn moving_carries_the_tile_to_its_new_cell() {
    let mut state = played(&[place(TileType::Queen, 0, 0), place(TileType::Queen, 1, 0)]);
    state.apply_move(slide((0, 0), (0, 1)));
    assert_eq!(state.turn_count(), 3);
    assert!(!state.tiles().contains_key(&at(0, 0)));
    let tile = state.tiles().get(&at(0, 1)).unwrap();
    assert_eq!((*tile.team(), *tile.tile_type()), (true, TileType::Queen));
    assert_eq!(state.tiles().len(), 2);
    // the queen is now counted around her new cell: (1, 0) lies beside (0, 1)
    assert_eq!(state.score(), (0, false, false));
    state.apply_move(slide((1, 0), (2, 0)));
    // no tile touches another any more
    assert_eq!(state.score(), (0, false, false));
}

#[test]
fn apply_then_undo_restores_the_state() {
    let mut state = played(&[
        place(TileType::Queen, 0, 0),
        place(TileType::Queen, 1, 0),
        place(TileType::Ant, -1, 0),
        place(TileType::Ant, 2, 0),
    ]);
    let before = state.clone();
    let hash = state.get_hash();
    let options = [
        place(TileType::Ant, -1, 1),
        place(TileType::Ant, -2, 0),
        slide((0, 0), (0, 1)),
        slide((-1, 0), (0, -1)),
    ];
    for m in options {
        state.apply_move(m);
        assert!(!state.same_position(&before));
        assert_eq!(state.turn_count(), 5);
        state.undo_move(m);
        assert!(state.same_position(&before));
        assert_eq!(state.get_hash(), hash);
        assert_eq!(state.turn_count(), 4);
        assert_eq!(state.score(), before.score());
        assert_eq!(state.get_possible_moves(), before.get_possible_moves());
    }
}

#[test]
fn undoing_a_queen_placement_puts_her_back_in_the_bag() {
    let mut state = GameState::new();
    state.apply_move(place(TileType::Queen, 0, 0));
    state.undo_move(place(TileType::Queen, 0, 0));
    assert!(state.same_position(&GameState::new()));
    assert!(state.turn_piece_bag().has_queen());
    assert_eq!(state.tiles().len(), 0);
}

#[test]
fn every_generated_move_can_be_undone() {
    let mut state = GameState::new();
    // a fixed walk through a game: at each ply the move in the middle of the list
    for _ in 0..14 {
        let moves = state.get_possible_moves();
        if moves.is_empty() {
            state.pass();
            continue;
        }
        let before = state.clone();
        for m in &moves {
            state.apply_move(*m);
            state.undo_move(*m);
            assert!(state.same_position(&before));
        }
        state.apply_move(moves[moves.len() / 2]);
    }
}

#[test]
fn pass_and_unpass_only_count_the_ply() {
    let mut state = played(&[place(TileType::Queen, 0, 0)]);
    let before = state.clone();
    state.pass();
    assert_eq!(state.turn_count(), 2);
    assert!(state.turn());
    assert_eq!(state.tiles().len(), 1);
    assert!(!state.same_position(&before));
    state.unpass();
    assert_eq!(state.turn_count(), 1);
    assert!(state.same_position(&before));
}

#[test]
fn the_hash_tells_who_is_to_move() {
    let mut state = played(&[place(TileType::Queen, 0, 0), place(TileType::Queen, 1, 0)]);
    let first_to_move = state.get_hash();
    state.pass();
    let second_to_move = state.get_hash();
    assert_eq!(first_to_move, second_to_move.wrapping_add(1));
}

#[test]
fn the_hash_of_an_empty_board_is_the_mark_of_the_mover() {
    let mut state = GameState::new();
    assert_eq!(state.get_hash(), 1);
    state.pass();
    assert_eq!(state.get_hash(), 0);
}

#[test]
fn the_hash_does_not_depend_on_the_order_of_the_tiles() {
    let one = played(&[
        place(TileType::Queen, 0, 0),
        place(TileType::Queen, 1, 0),
        place(TileType::Ant, -1, 0),
        place(TileType::Ant, 2, 0),
        place(TileType::Ant, -1, 1),
        place(TileType::Ant, 2, -1),
    ]);
    let other = played(&[
        place(TileType::Queen, 0, 0),
        place(TileType::Queen, 1, 0),
        place(TileType::Ant, -1, 1),
        place(TileType::Ant, 2, -1),
        place(TileType::Ant, -1, 0),
        place(TileType::Ant, 2, 0),
    ]);
    assert_ne!(one.tiles().key_at(2), other.tiles().key_at(2));
    assert!(one.same_position(&other));
    assert_eq!(one.get_hash(), other.get_hash());
}

#[test]
fn the_hash_tells_positions_apart() {
    let one = played(&[place(TileType::Queen, 0, 0), place(TileType::Queen, 1, 0)]);
    let other = played(&[place(TileType::Queen, 0, 0), place(TileType::Ant, 1, 0)]);
    let third = played(&[place(TileType::Ant, 0, 0), place(TileType::Queen, 1, 0)]);
    assert_ne!(one.get_hash(), other.get_hash());
    assert_ne!(one.get_hash(), third.get_hash());
    assert_ne!(other.get_hash(), third.get_hash());
}

#[test]
fn a_surrounded_queen_loses() {
    let state = first_queen_surrounded();
    // the second queen is not on the board and counts as 1
    assert_eq!(state.score(), (1 - 6, false, true));
}

#[test]
fn five_neighbours_are_not_a_win() {
    let mut state = first_queen_surrounded();
    state.undo_move(place(TileType::Ant, -1, 0));
    assert_eq!(state.score(), (1 - 5, false, false));
}

#[test]
fn the_second_queen_surrounded_is_a_win_for_the_first() {
    let state = played(&[
        place(TileType::Ant, 0, 0),
        place(TileType::Queen, 1, 0),
        place(TileType::Ant, 1, 1),
        place(TileType::Ant, 0, 1),
        place(TileType::Ant, 2, 0),
        place(TileType::Ant, 2, -1),
        place(TileType::Ant, 1, -1),
    ]);
    assert_eq!(state.score(), (6 - 1, true, false));
}

#[test]
fn both_queens_surrounded_is_a_draw() {
    let state = played(&[
        place(TileType::Queen, 0, 0),
        place(TileType::Queen, 1, 0),
        place(TileType::Ant, 0, 1),
        place(TileType::Ant, 1, 1),
        place(TileType::Ant, -1, 1),
        place(TileType::Ant, 2, 0),
        place(TileType::Ant, 1, -1),
        place(TileType::Ant, 2, -1),
        place(TileType::Ant, 0, -1),
        place(TileType::Ant, -1, 0),
    ]);
    assert_eq!(state.score(), (0, true, true));
}

#[test]
fn the_score_is_the_difference_of_the_crowds() {
    // the first queen has 2 neighbours, the second 3
    let state = played(&[
        place(TileType::Queen, 0, 0),
        place(TileType::Queen, 1, 0),
        place(TileType::Ant, -1, 0),
        place(TileType::Ant, 2, 0),
        place(TileType::Ant, 2, -1),
    ]);
    assert_eq!(state.score(), (3 - 2, false, false));
}

#[test]
fn bounds_frame_the_tiles_on_the_display_grid() {
    let state = played(&[place(TileType::Queen, 0, 0), place(TileType::Queen, 1, 0)]);
    // the tiles show at (0, 0) and (2, 0)
    assert_eq!(state.get_square_bounds(), (-2, -1, 4, 1));
    let state = played(&[
        place(TileType::Queen, 0, 0),
        place(TileType::Queen, 1, 0),
        place(TileType::Ant, -1, 1),
        place(TileType::Ant, 1, -1),
    ]);
    // (-1, 1) shows at (-1, 1), and (1, -1) at (1, -1)
    assert_eq!(state.get_square_bounds(), (-1 - 2, -1 - 1, 2 + 2, 1 + 1));
}

#[test]
fn a_clone_is_the_same_position() {
    let state = first_queen_surrounded();
    let copy = state.clone();
    assert!(copy.same_position(&state));
    assert_eq!(copy.get_hash(), state.get_hash());
    assert_eq!(copy.turn_count(), 7);
}

#[test]
fn states_differ_by_ply_bag_or_tile() {
    let base = played(&[place(TileType::Queen, 0, 0), place(TileType::Queen, 1, 0)]);
    let mut later = base.clone();
    later.pass();
    later.pass();
    assert!(!base.same_position(&later));
    let other_kind = played(&[place(TileType::Queen, 0, 0), place(TileType::Ant, 1, 0)]);
    assert!(!base.same_position(&other_kind));
    let other_cell = played(&[place(TileType::Queen, 0, 0), place(TileType::Queen, 0, 1)]);
    assert!(!base.same_position(&other_cell));
    assert!(base.same_position(&base.clone()));
}

#[test]
fn the_ply_limit_is_the_reach() {
    assert_eq!(MAX_PLIES, 0x2000_0000);
    assert_eq!(MAX_PLIES as isize, hive::hex_coord::REACH);
}

#[test]
fn tiles_are_shown_relative_to_the_bounds() {
    let state = played(&[
        place(TileType::Queen, 0, 0),
        place(TileType::Ant, 1, 0),
        place(TileType::Ant, -1, 1),
    ]);
    let bounds = state.get_square_bounds();
    assert_eq!(bounds, (-3, -1, 4, 2));
    let mut shown = state.display_tiles(bounds);
    shown.sort();
    // the cells show at (0, 0), (2, 0) and (-1, 1) of the doubled grid
    assert_eq!(shown, vec![(2, 2, true, 'A'), (3, 1, true, 'Q'), (5, 1, false, 'A')]);
    assert_eq!(GameState::new().display_tiles((-2, -1, 2, 1)), vec![]);
}

#[test]
fn a_shown_cell_is_found_by_its_column_and_row() {
    let state = played(&[
        place(TileType::Queen, 0, 0),
        place(TileType::Ant, 1, 0),
        place(TileType::Ant, -1, 1),
    ]);
    let bounds = state.get_square_bounds();
    for (column, row, _, _) in state.display_tiles(bounds) {
        let cell = state.cell_on_display(column + 1, row + 1).unwrap();
        assert!(state.tiles().contains_key(&cell));
        let (x, y) = cell.to_square();
        assert_eq!((x - bounds.0, y - bounds.1), (column as isize, row as isize));
    }
    // the origin shows in the fourth column of the second row
    assert_eq!(state.cell_on_display(4, 2), Some(at(0, 0)));
    assert_eq!(state.cell_on_display(1, 1), Some(at(-1, -1)));
    // between two columns of a row no cell is shown
    assert_eq!(state.cell_on_display(5, 2), None);
    assert_eq!(state.cell_on_display(1, 2), None);
    // nor where the row does not fit the machine
    assert_eq!(state.cell_on_display(2, usize::MAX), None);
    assert_eq!(state.cell_on_display(0, 0), Some(at(-1, -2)));
}

/// What the default hasher makes of a tile, written as the library writes it.
fn fingerprint(x: isize, y: isize, team: bool, kind: TileType) -> u64 {
    let mut h = DefaultHasher::new();
    h.write(&((x + hive::hex_coord::REACH) as u64).to_le_bytes());
    h.write(&((y + hive::hex_coord::REACH) as u64).to_le_bytes());
    h.write(&[
        if team { 1 } else { 0 },
        match kind {
            TileType::Queen => 0,
            TileType::Ant => 1,
        },
    ]);
    h.finish()
}

#[test]
fn the_hash_is_the_sum_of_the_fingerprints() {
    let mut state = played(&[place(TileType::Queen, 0, 0)]);
    // the second player is to move, and nothing is added for that
    assert_eq!(state.get_hash(), fingerprint(0, 0, true, TileType::Queen));
    state.apply_move(place(TileType::Ant, 1, 0));
    let sum = fingerprint(0, 0, true, TileType::Queen)
        .wrapping_add(fingerprint(1, 0, false, TileType::Ant));
    assert_eq!(state.get_hash(), sum.wrapping_add(1));
    state.apply_move(place(TileType::Ant, -1, 1));
    let sum = sum.wrapping_add(fingerprint(-1, 1, true, TileType::Ant));
    assert_eq!(state.get_hash(), sum);
}
