use hive::game_state::{list_move, GameState, Move};
use hive::hex_coord::HexCoord;
use hive::hive::{any_around, around, explore, in_order, list_cell, lists, Walk};
use hive::tile_types::{possible_steps, TileType};

fn at(x: isize, y: isize) -> HexCoord {
    HexCoord::new(x, y)
}

fn place(kind: TileType, x: isize, y: isize) -> Move {
    Move::Place(kind, at(x, y))
}

fn slide(from: (isize, isize), to: (isize, isize)) -> Move {
    Move::Move(at(from.0, from.1), at(to.0, to.1))
}

fn played(moves: &[Move]) -> GameState {
    let mut state = GameState::new();
    for m in moves {
        state.apply_move(*m);
    }
    state
}

fn sorted(mut cells: Vec<HexCoord>) -> Vec<HexCoord> {
    cells.sort_by_key(|c| (c.x, c.y));
    cells
}

/// Whether the tiles of the state hang together, by a walk of the test's own.
fn hangs_together(state: &GameState) -> bool {
    let tiles = state.tiles();
    let n = tiles.len();
    if n == 0 {
        return true;
    }
    let mut seen = vec![tiles.key_at(0)];
    let mut next = 0;
    while next < seen.len() {
        for c in seen[next].surrounding() {
            if tiles.contains_key(&c) && !seen.contains(&c) {
                seen.push(c);
            }
        }
        next += 1;
    }
    seen.len() == n
}

#[test]
fn the_first_piece_goes_to_the_origin() {
    let state = GameState::new();
    assert_eq!(
        state.get_possible_moves(),
        vec![place(TileType::Queen, 0, 0), place(TileType::Ant, 0, 0)]
    );
}

#[test]
fn the_second_piece_goes_beside_the_first() {
    for first in [TileType::Queen, TileType::Ant] {
        let state = played(&[place(first, 0, 0)]);
        assert_eq!(
            state.get_possible_moves(),
            vec![place(TileType::Queen, 1, 0), place(TileType::Ant, 1, 0)]
        );
    }
}

#[test]
fn third_ply_after_two_queens() {
    let state = played(&[place(TileType::Queen, 0, 0), place(TileType::Queen, 1, 0)]);
    // an ant may go where it touches the first queen and not the second;
    // the queen may slide to the cells that still touch the second queen
    assert_eq!(
        state.get_possible_moves(),
        vec![
            place(TileType::Ant, -1, 0),
            place(TileType::Ant, -1, 1),
            place(TileType::Ant, 0, -1),
            slide((0, 0), (0, 1)),
            slide((0, 0), (1, -1)),
        ]
    );
    assert_eq!(
        sorted(state.get_placeable_locations()),
        vec![at(-1, 0), at(-1, 1), at(0, -1)]
    );
}

#[test]
fn third_ply_without_a_queen_has_no_movement() {
    let state = played(&[place(TileType::Ant, 0, 0), place(TileType::Ant, 1, 0)]);
    assert_eq!(
        state.get_possible_moves(),
        vec![
            place(TileType::Queen, -1, 0),
            place(TileType::Ant, -1, 0),
            place(TileType::Queen, -1, 1),
            place(TileType::Ant, -1, 1),
            place(TileType::Queen, 0, -1),
            place(TileType::Ant, 0, -1),
        ]
    );
}

#[test]
fn placements_touch_only_the_own_side() {
    let state = played(&[
        place(TileType::Queen, 0, 0),
        place(TileType::Queen, 1, 0),
        place(TileType::Ant, -1, 0),
    ]);
    // the second player is to move
    let spots = sorted(state.get_placeable_locations());
    assert_eq!(spots, vec![at(1, 1), at(2, -1), at(2, 0)]);
    for spot in spots {
        let around = spot.surrounding();
        assert!(around.contains(&at(1, 0)));
        assert!(!around.contains(&at(0, 0)));
        assert!(!around.contains(&at(-1, 0)));
    }
}

#[test]
fn the_sole_connector_of_a_chain_stays() {
    // the first player's ant, the first player's queen, the second queen
    let state = played(&[
        place(TileType::Queen, 0, 0),
        place(TileType::Queen, 1, 0),
        place(TileType::Ant, -1, 0),
        slide((1, 0), (1, -1)),
    ]);
    assert_eq!(state.tiles().len(), 3);
    assert!(state.turn());
    let moves = state.get_possible_moves();
    for m in &moves {
        if let Move::Move(from, _) = m {
            assert_ne!(*from, at(0, 0));
        }
    }
    // the ant at the end of the chain is free to go
    assert!(moves.contains(&slide((-1, 0), (0, 1))));
    // leaving the middle breaks the hive, wherever the queen goes
    assert!(state.is_broken(&at(0, 0), &at(0, 1)));
    assert!(state.is_broken(&at(0, 0), &at(-1, 1)));
    // but for the cell that joins both ends, to which she cannot slide
    assert!(!state.is_broken(&at(0, 0), &at(0, -1)));
    let steps = possible_steps(&at(0, 0), state.tiles());
    assert!(!steps.contains(&at(0, -1)));
}

#[test]
fn an_end_of_the_chain_may_go_where_it_still_touches() {
    let state = played(&[
        place(TileType::Queen, 0, 0),
        place(TileType::Queen, 1, 0),
        place(TileType::Ant, -1, 0),
    ]);
    assert!(!state.is_broken(&at(1, 0), &at(1, -1)));
    assert!(!state.is_broken(&at(1, 0), &at(0, 1)));
    assert!(state.is_broken(&at(1, 0), &at(2, 0)));
    assert!(state.is_broken(&at(1, 0), &at(5, 5)));
    assert!(!state.is_broken(&at(-1, 0), &at(2, 0)));
}

#[test]
fn a_lone_tile_may_go_anywhere() {
    let state = played(&[place(TileType::Queen, 0, 0)]);
    assert!(!state.is_broken(&at(0, 0), &at(0, 1)));
    assert!(!state.is_broken(&at(0, 0), &at(7, 7)));
    let empty = GameState::new();
    assert!(!empty.is_broken(&at(0, 0), &at(0, 1)));
}

#[test]
fn steps_come_in_the_order_of_the_neighbours() {
    let state = played(&[place(TileType::Queen, 0, 0), place(TileType::Queen, 1, 0)]);
    assert_eq!(
        possible_steps(&at(0, 0), state.tiles()),
        vec![at(0, 1), at(-1, 1), at(1, -1), at(0, -1), at(-1, 0)]
    );
    // on an empty board every neighbour can be reached
    let empty = GameState::new();
    assert_eq!(possible_steps(&at(2, 2), empty.tiles()), at(2, 2).surrounding().to_vec());
}

#[test]
fn a_step_between_two_tiles_is_barred() {
    // (1, 0) and (-1, 1) both touch the origin and (0, 1): no piece passes
    // between them
    let state = played(&[
        place(TileType::Queen, 0, 0),
        place(TileType::Ant, 1, 0),
        place(TileType::Ant, -1, 1),
    ]);
    let steps = possible_steps(&at(0, 0), state.tiles());
    assert_eq!(steps, vec![at(1, -1), at(0, -1), at(-1, 0)]);
    assert!(!steps.contains(&at(0, 1)));
}

#[test]
fn a_step_beside_one_tile_is_free() {
    // of the two cells that touch the origin and (-1, 1), only (0, 1) is
    // occupied; of those that touch the origin and (1, -1), only (1, 0)
    let state = played(&[
        place(TileType::Queen, 0, 0),
        place(TileType::Ant, 0, 1),
        place(TileType::Ant, 1, 0),
    ]);
    let steps = possible_steps(&at(0, 0), state.tiles());
    assert_eq!(steps, vec![at(-1, 1), at(1, -1), at(0, -1), at(-1, 0)]);
}

#[test]
fn each_direction_is_barred_by_its_own_two_flanks() {
    let origin = at(0, 0);
    let around = origin.surrounding();
    for i in 0..6 {
        // the flanks of a neighbour are the cells that touch it and the origin
        let flanks: Vec<HexCoord> = around
            .iter()
            .filter(|c| around[i].surrounding().contains(c))
            .copied()
            .collect();
        assert_eq!(flanks.len(), 2);
        let mut state = GameState::new();
        state.apply_move(place(TileType::Queen, 0, 0));
        state.apply_move(Move::Place(TileType::Ant, flanks[0]));
        let steps = possible_steps(&origin, state.tiles());
        assert!(steps.contains(&around[i]));
        assert_eq!(steps.len(), 5);
        state.apply_move(Move::Place(TileType::Ant, flanks[1]));
        let steps = possible_steps(&origin, state.tiles());
        assert!(!steps.contains(&around[i]));
        for c in &steps {
            assert!(around.contains(c));
            assert!(!state.tiles().contains_key(c));
        }
    }
}

#[test]
fn the_queen_moves_one_step() {
    let state = played(&[place(TileType::Queen, 0, 0), place(TileType::Queen, 1, 0)]);
    assert_eq!(
        TileType::Queen.get_moves(&at(0, 0), state.tiles()),
        possible_steps(&at(0, 0), state.tiles())
    );
}

#[test]
fn the_ant_walks_round_the_hive() {
    let state = played(&[place(TileType::Ant, 0, 0), place(TileType::Queen, 1, 0)]);
    let reached = sorted(TileType::Ant.get_moves(&at(0, 0), state.tiles()));
    // every empty cell that touches one of the two tiles
    let mut rim = Vec::new();
    for tile in [at(0, 0), at(1, 0)] {
        for c in tile.surrounding() {
            if !state.tiles().contains_key(&c) && !rim.contains(&c) {
                rim.push(c);
            }
        }
    }
    assert_eq!(reached, sorted(rim));
    assert_eq!(reached.len(), 8);
    assert!(reached.contains(&at(2, 0)));
    assert!(!reached.contains(&at(0, 0)));
    assert!(!reached.contains(&at(3, 0)));
}

#[test]
fn the_ant_does_not_pass_a_barred_step() {
    // a ring of tiles round the empty cell (0, 0), with the ant outside it
    let mut state = GameState::new();
    state.apply_move(place(TileType::Queen, 0, 0));
    state.apply_move(place(TileType::Queen, 1, 0));
    state.apply_move(slide((0, 0), (0, 1)));
    for cell in [(1, -1), (-1, 1), (0, -1), (-1, 0), (2, 0)] {
        state.apply_move(place(TileType::Ant, cell.0, cell.1));
    }
    assert!(!state.tiles().contains_key(&at(0, 0)));
    for c in at(0, 0).surrounding() {
        assert!(state.tiles().contains_key(&c));
    }
    let reached = TileType::Ant.get_moves(&at(2, 0), state.tiles());
    assert!(!reached.is_empty());
    assert!(!reached.contains(&at(0, 0)));
    for c in &reached {
        assert!(!state.tiles().contains_key(c));
        assert!(any_around(state.tiles(), c));
    }
}

#[test]
fn moves_of_the_ant_reach_further_than_one_step() {
    let state = played(&[
        place(TileType::Queen, 0, 0),
        place(TileType::Queen, 1, 0),
        place(TileType::Ant, -1, 0),
        place(TileType::Ant, 2, 0),
    ]);
    let moves = state.get_possible_moves();
    // the ant at the left end can go to the far right end of the row
    assert!(moves.contains(&slide((-1, 0), (3, 0))));
    assert!(moves.contains(&slide((-1, 0), (3, -1))));
    // the queen in the middle of the row cannot leave
    assert!(!moves.iter().any(|m| matches!(m, Move::Move(from, _) if *from == at(0, 0))));
    // and no tile of the other player is moved
    assert!(!moves.iter().any(|m| matches!(m, Move::Move(from, _) if *from == at(2, 0))));
}

#[test]
fn the_queen_is_forced_on_her_ply() {
    let mut state = GameState::new();
    // both players place ants only, for three plies each
    for _ in 0..6 {
        let moves = state.get_possible_moves();
        let ant = moves
            .iter()
            .find(|m| matches!(m, Move::Place(TileType::Ant, _)))
            .unwrap();
        state.apply_move(*ant);
    }
    for _ in 0..2 {
        assert!(state.turn_count() == 6 || state.turn_count() == 7);
        let moves = state.get_possible_moves();
        assert!(!moves.is_empty());
        for m in &moves {
            assert!(matches!(m, Move::Place(TileType::Queen, _)));
        }
        state.apply_move(moves[0]);
    }
    // after that ants may be placed again
    let moves = state.get_possible_moves();
    assert!(moves.iter().any(|m| matches!(m, Move::Place(TileType::Ant, _))));
    assert!(!moves.iter().any(|m| matches!(m, Move::Place(TileType::Queen, _))));
}

#[test]
fn a_player_hemmed_in_has_no_move() {
    let mut state = played(&[place(TileType::Ant, 0, 0), place(TileType::Queen, 1, 0)]);
    state.pass();
    state.apply_move(place(TileType::Ant, -1, 0));
    assert!(state.turn());
    assert_eq!(state.get_placeable_locations(), Vec::<HexCoord>::new());
    assert_eq!(state.get_possible_moves(), Vec::<Move>::new());
}

#[test]
fn moves_are_listed_in_order_and_once() {
    let mut state = GameState::new();
    for _ in 0..12 {
        let moves = state.get_possible_moves();
        for pair in moves.windows(2) {
            assert!(pair[0].precedes(&pair[1]));
            assert!(!pair[1].precedes(&pair[0]));
        }
        if moves.is_empty() {
            state.pass();
        } else {
            state.apply_move(moves[moves.len() - 1]);
        }
    }
}

#[test]
fn the_hive_stays_whole_through_a_game() {
    for pick in 0..7usize {
        let mut state = GameState::new();
        for ply in 0..24usize {
            assert!(hangs_together(&state));
            let moves = state.get_possible_moves();
            if moves.is_empty() {
                state.pass();
                continue;
            }
            let m = moves[(pick * 31 + ply * 7) % moves.len()];
            state.apply_move(m);
        }
        assert!(hangs_together(&state));
    }
}

#[test]
fn moves_do_not_target_occupied_cells() {
    let mut state = GameState::new();
    for ply in 0..20usize {
        let moves = state.get_possible_moves();
        for m in &moves {
            match m {
                Move::Place(_, to) => assert!(!state.tiles().contains_key(to)),
                Move::Move(from, to) => {
                    assert!(state.tiles().contains_key(from));
                    assert!(!state.tiles().contains_key(to));
                    assert_eq!(*state.tiles().get(from).unwrap().team(), state.turn());
                    assert!(!state.is_broken(from, to));
                }
            }
        }
        if moves.is_empty() {
            state.pass();
        } else {
            state.apply_move(moves[(ply * 5) % moves.len()]);
        }
    }
}

#[test]
fn list_move_keeps_the_list_in_order() {
    let mut list = Vec::new();
    list_move(&mut list, slide((0, 0), (0, 1)));
    list_move(&mut list, place(TileType::Ant, 1, 1));
    list_move(&mut list, place(TileType::Queen, 1, 1));
    list_move(&mut list, place(TileType::Ant, -3, 4));
    list_move(&mut list, slide((0, 0), (-1, 1)));
    list_move(&mut list, slide((-1, 0), (5, 5)));
    // a move that is listed already is not listed again
    list_move(&mut list, place(TileType::Ant, 1, 1));
    assert_eq!(
        list,
        vec![
            place(TileType::Ant, -3, 4),
            place(TileType::Queen, 1, 1),
            place(TileType::Ant, 1, 1),
            slide((-1, 0), (5, 5)),
            slide((0, 0), (-1, 1)),
            slide((0, 0), (0, 1)),
        ]
    );
}

#[test]
fn explore_finds_what_hangs_on_the_seed() {
    let state = played(&[
        place(TileType::Queen, 0, 0),
        place(TileType::Queen, 1, 0),
        place(TileType::Ant, -1, 0),
    ]);
    // with the middle tile gone to a far cell, the right end is alone
    let walk = Walk::Hive { from: at(0, 0), to: at(4, 4) };
    assert_eq!(explore(state.tiles(), &walk, &vec![at(1, 0)]), vec![at(1, 0)]);
    // a seed that is no tile is not walked from
    assert_eq!(explore(state.tiles(), &walk, &vec![at(0, 0)]), Vec::<HexCoord>::new());
    // with the right end gone beside the left end, all hang together
    let walk = Walk::Hive { from: at(1, 0), to: at(-2, 0) };
    let found = sorted(explore(state.tiles(), &walk, &vec![at(0, 0), at(0, 0)]));
    assert_eq!(found, vec![at(-2, 0), at(-1, 0), at(0, 0)]);
}

#[test]
fn lists_and_any_around_answer_for_each_cell() {
    let cells = vec![at(0, 0), at(3, 1)];
    assert!(lists(&cells, &at(3, 1)));
    assert!(!lists(&cells, &at(1, 3)));
    let state = played(&[place(TileType::Queen, 0, 0)]);
    assert!(any_around(state.tiles(), &at(0, 1)));
    assert!(any_around(state.tiles(), &at(-1, 0)));
    assert!(!any_around(state.tiles(), &at(0, 0)));
    assert!(!any_around(state.tiles(), &at(2, 0)));
}

#[test]
fn list_cell_keeps_the_list_in_order() {
    let mut list = Vec::new();
    for cell in [(2, 1), (0, 0), (-1, 5), (2, -3), (0, 0), (-1, 5), (0, -1)] {
        list_cell(&mut list, at(cell.0, cell.1));
    }
    assert_eq!(list, vec![at(-1, 5), at(0, -1), at(0, 0), at(2, -3), at(2, 1)]);
    let mixed = vec![at(1, 1), at(0, 2), at(1, 1), at(-4, 0), at(0, -2)];
    assert_eq!(in_order(&mixed), vec![at(-4, 0), at(0, -2), at(0, 2), at(1, 1)]);
    assert_eq!(in_order(&Vec::new()), Vec::<HexCoord>::new());
}

#[test]
fn around_lists_the_neighbours_as_surrounding_does() {
    let c = at(-3, 8);
    assert_eq!(around(&c), c.surrounding().to_vec());
}

#[test]
fn reached_cells_come_in_ascending_order() {
    let state = played(&[
        place(TileType::Queen, 0, 0),
        place(TileType::Queen, 1, 0),
        place(TileType::Ant, -1, 0),
        place(TileType::Ant, 2, 0),
    ]);
    let reached = TileType::Ant.get_moves(&at(-1, 0), state.tiles());
    assert_eq!(reached, sorted(reached.clone()));
    assert_eq!(reached.len(), 12);
    let spots = state.get_placeable_locations();
    assert_eq!(spots, sorted(spots.clone()));
    assert_eq!(spots, vec![at(-2, 0), at(-2, 1), at(-1, -1), at(-1, 1), at(0, -1)]);
}
