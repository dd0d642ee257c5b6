//! A game for two players who build a hive of tiles on a hexagonal grid. A
//! tile is placed beside tiles of its own side or slides along the hive, the
//! hive must stay in one piece, and the player whose queen is surrounded
//! loses.
//!
//! - `hex_coord`: the cells of the grid and their neighbours.
//! - `tile_types`, `hive_tile`, `piece_bag`, `tile_store`: the kinds of piece
//!   and how each moves, the tiles, the bags and the board that holds them.
//! - `hive`: what it means for cells to hang together, and the walk that
//!   finds the cells that do.
//! - `board`: the position as a mathematical value, with the rules of the
//!   game and what follows from them.
//! - `game_state`: the state of a game, which lists the legal moves, makes a
//!   move and takes it back.
//! - `search`: the choice of a move by minimax with alpha-beta pruning and a
//!   memo of positions.
//! - `pruning`: the value of that search compared with plain minimax.

pub mod board;
pub mod game_state;
pub mod hex_coord;
pub mod hive;
pub mod hive_tile;
pub mod piece_bag;
pub mod pruning;
pub mod search;
pub mod tile_store;
pub mod tile_types;
