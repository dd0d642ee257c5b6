//! The state of a game: the board, the bags, the queens and the ply.

use vstd::prelude::*;
use vstd::bytes::u64_to_le_bytes;
use std::collections::hash_map::DefaultHasher;
use std::hash::Hasher;
use crate::board::{
    ascending, crowd, digest, digest_sum_listed, law_hash_any_order, lemma_order, Action, Board,
};
use crate::hex_coord::{
    in_reach, lemma_neighbor_within, lemma_opposite, opposite, Hex, HexCoord, REACH,
};
use crate::hive::{
    ascending_cells, explore, hive, lemma_hive_symmetric, lemma_listed_len, lemma_listed_upto,
    lemma_reached_node, list_cell, listed_upto, one_hive, Walk,
};
use crate::hive_tile::{HiveTile, Piece};
use crate::piece_bag::{PieceBag, STARTING_TOTAL};
use crate::tile_types::TileType;

pub use crate::tile_store::TileStore;

verus! {

/// The ply after which no further move is made, nor asked for. A tile stands
/// no further from the origin than the ply counts, so up to here every
/// coordinate fits the machine.
pub const MAX_PLIES: usize = 0x2000_0000;

/// What a player does on a ply, but for passing.
#[derive(Clone, Copy, Debug, PartialEq, Eq, Structural)]
pub enum Move {
    /// A piece of this kind comes from the bag onto this cell.
    Place(TileType, HexCoord),
    /// The tile on the first cell goes to the second.
    Move(HexCoord, HexCoord),
}

impl View for Move {
    type V = Action;

    open spec fn view(&self) -> Action {
        match *self {
            Move::Place(kind, at) => Action::Place(kind, at@),
            Move::Move(from, to) => Action::Move(from@, to@),
        }
    }
}

impl DeepView for Move {
    type V = Action;

    open spec fn deep_view(&self) -> Action {
        self@
    }
}

impl Move {
    /// Whether this move is listed before `other`.
    pub fn precedes(&self, other: &Move) -> (first: bool)
        ensures
            first == self@.before(other@),
    {
        match (self, other) {
            (Move::Place(k1, h1), Move::Place(k2, h2)) => h1.precedes(h2) || (*h1 == *h2
                && matches!(k1, TileType::Queen) && matches!(k2, TileType::Ant)),
            (Move::Place(_, _), Move::Move(_, _)) => true,
            (Move::Move(_, _), Move::Place(_, _)) => false,
            (Move::Move(a1, b1), Move::Move(a2, b2)) => a1.precedes(a2) || (*a1 == *a2
                && b1.precedes(b2)),
        }
    }
}

/// Puts `m` in its place in the list, unless the list holds it.
pub fn list_move(list: &mut Vec<Move>, m: Move)
    requires
        ascending(old(list).deep_view()),
    ensures
        ascending(final(list).deep_view()),
        forall|x: Action|
            #![trigger final(list).deep_view().contains(x)]
            final(list).deep_view().contains(x) <==> old(list).deep_view().contains(x) || x == m@,
{
    let ghost before = list.deep_view();
    let mut i: usize = 0;
    while i < list.len() && list[i].precedes(&m)
        invariant
            i <= list.len(),
            list.deep_view() == before,
            forall|j: int| 0 <= j < i ==> (#[trigger] before[j]).before(m@),
        decreases list.len() - i,
    {
        assert(list.deep_view()[i as int] == list[i as int]@);
        i += 1;
    }
    if i < list.len() && list[i] == m {
        assert(before[i as int] == list[i as int]@);
        assert(before.contains(m@));
        return ;
    }
    proof {
        if i < list.len() {
            assert(before[i as int] == list[i as int]@);
            lemma_order(before[i as int], m@, m@);
        }
    }
    list.insert(i, m);
    proof {
        let after = list.deep_view();
        assert(after =~= before.insert(i as int, m@));
        assert forall|a: int, b: int| 0 <= a < b < after.len() implies (#[trigger] after[a]).before(
            #[trigger] after[b],
        ) by {
            let a0 = if a < i { a } else { a - 1 };
            let b0 = if b < i { b } else { b - 1 };
            if a == i {
                assert(after[b] == before[b0]);
                assert(before[i as int].before(before[b0]) || b0 == i);
                lemma_order(m@, before[i as int], before[b0]);
            } else if b == i {
                assert(after[a] == before[a0]);
            } else {
                assert(after[a] == before[a0] && after[b] == before[b0]);
                assert(before[a0].before(before[b0]));
            }
        }
        assert forall|x: Action| after.contains(x) <==> before.contains(x) || x == m@ by {
            if after.contains(x) {
                let a = choose|a: int| 0 <= a < after.len() && after[a] == x;
                if a != i {
                    let a0 = if a < i { a } else { a - 1 };
                    assert(before[a0] == x);
                }
            }
            if before.contains(x) {
                let a0 = choose|a0: int| 0 <= a0 < before.len() && before[a0] == x;
                let a = if a0 < i { a0 } else { a0 + 1 };
                assert(after[a] == x);
            }
            if x == m@ {
                assert(after[i as int] == x);
            }
        }
    }
}

/// `h` is the `a`-th neighbour of the `k`-th listed cell, on which a tile of
/// the player to move stands.
spec fn own_neighbor(b: Board, keys: Seq<Hex>, k: int, a: int, h: Hex) -> bool {
    b.tiles[keys[k]].team == b.turn() && keys[k].neighbor(a) == h
}

/// `h` lies beside one of the first `i` listed cells, on which a tile of the
/// player to move stands.
spec fn beside_own(b: Board, keys: Seq<Hex>, i: int, h: Hex) -> bool {
    exists|k: int, a: int| 0 <= k < i && 0 <= a < 6 && #[trigger] own_neighbor(b, keys, k, a, h)
}

/// `h` is among the first `j` neighbours of `c`.
spec fn among(c: Hex, j: int, h: Hex) -> bool {
    exists|a: int| 0 <= a < j && #[trigger] c.neighbor(a) == h
}

proof fn lemma_among(c: Hex, j: int)
    requires
        0 <= j < 6,
    ensures
        forall|h: Hex| among(c, j + 1, h) <==> among(c, j, h) || c.neighbor(j) == h,
{
    assert forall|h: Hex| among(c, j + 1, h) <==> among(c, j, h) || c.neighbor(j) == h by {
        if among(c, j, h) {
            let a = choose|a: int| 0 <= a < j && #[trigger] c.neighbor(a) == h;
            assert(0 <= a < j + 1 && c.neighbor(a) == h);
        }
        if c.neighbor(j) == h {
            assert(0 <= j < j + 1 && c.neighbor(j) == h);
        }
    }
}

proof fn lemma_beside_own(b: Board, keys: Seq<Hex>, i: int)
    requires
        0 <= i < keys.len(),
    ensures
        forall|h: Hex|
            beside_own(b, keys, i + 1, h) <==> beside_own(b, keys, i, h) || (b.tiles[keys[i]].team
                == b.turn() && among(keys[i], 6, h)),
{
    assert forall|h: Hex|
        beside_own(b, keys, i + 1, h) <==> beside_own(b, keys, i, h) || (b.tiles[keys[i]].team
            == b.turn() && among(keys[i], 6, h)) by {
        if beside_own(b, keys, i + 1, h) {
            let (k, a) = choose|k: int, a: int|
                0 <= k < i + 1 && 0 <= a < 6 && #[trigger] own_neighbor(b, keys, k, a, h);
            if k < i {
                assert(beside_own(b, keys, i, h));
            } else {
                assert(keys[i].neighbor(a) == h);
            }
        }
        if beside_own(b, keys, i, h) {
            let (k, a) = choose|k: int, a: int|
                0 <= k < i && 0 <= a < 6 && #[trigger] own_neighbor(b, keys, k, a, h);
            assert(0 <= k < i + 1 && own_neighbor(b, keys, k, a, h));
        }
        if b.tiles[keys[i]].team == b.turn() && among(keys[i], 6, h) {
            let a = choose|a: int| 0 <= a < 6 && #[trigger] keys[i].neighbor(a) == h;
            assert(own_neighbor(b, keys, i, a, h));
        }
    }
}

/// `x` places one of the first `n` kinds on `at`.
spec fn places(x: Action, at: Hex, kinds: Seq<TileType>, n: int) -> bool {
    match x {
        Action::Place(k, h) => h == at && exists|i: int| 0 <= i < n && #[trigger] kinds[i] == k,
        Action::Move(_, _) => false,
    }
}

proof fn lemma_places(at: Hex, kinds: Seq<TileType>, n: int)
    requires
        0 <= n < kinds.len(),
    ensures
        forall|x: Action|
            #![trigger places(x, at, kinds, n)]
            places(x, at, kinds, n + 1) <==> places(x, at, kinds, n) || x == Action::Place(
                kinds[n],
                at,
            ),
{
    assert forall|x: Action| #![trigger places(x, at, kinds, n)]
        places(x, at, kinds, n + 1) <==> places(x, at, kinds, n) || x == Action::Place(
            kinds[n],
            at,
        ) by {
        if let Action::Place(k, h) = x {
            if places(x, at, kinds, n) {
                let i = choose|i: int| 0 <= i < n && #[trigger] kinds[i] == k;
                assert(0 <= i < n + 1 && kinds[i] == k);
            }
            if x == Action::Place(kinds[n], at) {
                assert(0 <= n < n + 1 && kinds[n] == k);
            }
        }
    }
}

proof fn lemma_places_all(at: Hex, kinds: Seq<TileType>)
    ensures
        forall|x: Action|
            places(x, at, kinds, kinds.len() as int) <==> (x matches Action::Place(k, h) && h == at
                && kinds.contains(k)),
{
    assert forall|x: Action|
        places(x, at, kinds, kinds.len() as int) <==> (x matches Action::Place(k, h) && h == at
            && kinds.contains(k)) by {
        if let Action::Place(k, h) = x {
            if kinds.contains(k) {
                let j = choose|j: int| 0 <= j < kinds.len() && kinds[j] == k;
                assert(0 <= j < kinds.len() && kinds[j] == k);
            }
            if places(x, at, kinds, kinds.len() as int) {
                let j = choose|j: int| 0 <= j < kinds.len() && #[trigger] kinds[j] == k;
                assert(kinds.contains(k));
            }
        }
    }
}

/// Lists the placement on `at` of each of the kinds.
fn list_placements(moves: &mut Vec<Move>, kinds: &Vec<TileType>, at: HexCoord)
    requires
        ascending(old(moves).deep_view()),
    ensures
        ascending(final(moves).deep_view()),
        forall|x: Action|
            #![trigger final(moves).deep_view().contains(x)]
            final(moves).deep_view().contains(x) <==> old(moves).deep_view().contains(x) || (
            x matches Action::Place(k, h) && h == at@ && kinds@.contains(k)),
{
    let ghost before = moves.deep_view();
    let mut i: usize = 0;
    while i < kinds.len()
        invariant
            i <= kinds.len(),
            ascending(moves.deep_view()),
            forall|x: Action|
                #![trigger moves.deep_view().contains(x)]
                moves.deep_view().contains(x) <==> before.contains(x) || places(
                    x,
                    at@,
                    kinds@,
                    i as int,
                ),
        decreases kinds.len() - i,
    {
        proof {
            lemma_places(at@, kinds@, i as int);
        }
        let m = Move::Place(kinds[i], at);
        assert(m@ == Action::Place(kinds@[i as int], at@));
        list_move(moves, m);
        i += 1;
    }
    proof {
        lemma_places_all(at@, kinds@);
    }
}

/// `x` places one of the kinds on one of the first `n` cells.
spec fn offers(x: Action, kinds: Seq<TileType>, spots: Seq<Hex>, n: int) -> bool {
    match x {
        Action::Place(k, h) => kinds.contains(k) && listed_upto(spots, n, h),
        Action::Move(_, _) => false,
    }
}

/// `x` is a placement, or moves the tile on one of the first `n` cells.
spec fn from_upto(x: Action, keys: Seq<Hex>, n: int) -> bool {
    match x {
        Action::Place(_, _) => true,
        Action::Move(f, _) => listed_upto(keys, n, f),
    }
}

/// `x` moves the tile on `from` to one of the first `n` of the cells, and
/// the hive is whole afterwards.
spec fn shifts(x: Action, cells: Set<Hex>, from: Hex, dests: Seq<Hex>, n: int) -> bool {
    match x {
        Action::Place(_, _) => false,
        Action::Move(a, b) => a == from && listed_upto(dests, n, b) && one_hive(
            cells.remove(a).insert(b),
        ),
    }
}

proof fn lemma_shifts(cells: Set<Hex>, from: Hex, dests: Seq<Hex>, n: int)
    requires
        0 <= n < dests.len(),
    ensures
        forall|x: Action|
            #![trigger shifts(x, cells, from, dests, n)]
            shifts(x, cells, from, dests, n + 1) <==> shifts(x, cells, from, dests, n) || (x
                == Action::Move(from, dests[n]) && one_hive(cells.remove(from).insert(dests[n]))),
{
    lemma_listed_upto(dests, n);
}

proof fn lemma_shifts_all(cells: Set<Hex>, from: Hex, dests: Seq<Hex>)
    ensures
        forall|x: Action|
            shifts(x, cells, from, dests, dests.len() as int) <==> (x matches Action::Move(a, b)
                && a == from && dests.contains(b) && one_hive(cells.remove(a).insert(b))),
{
    assert forall|x: Action|
        shifts(x, cells, from, dests, dests.len() as int) <==> (x matches Action::Move(a, b) && a
            == from && dests.contains(b) && one_hive(cells.remove(a).insert(b))) by {
        if let Action::Move(a, b) = x {
            if dests.contains(b) {
                let j = choose|j: int| 0 <= j < dests.len() && dests[j] == b;
                assert(listed_upto(dests, dests.len() as int, b));
            }
            if listed_upto(dests, dests.len() as int, b) {
                let j = choose|j: int| 0 <= j < dests.len() && #[trigger] dests[j] == b;
                assert(dests.contains(b));
            }
        }
    }
}

/// The fingerprint of the tile `tile` on the cell `at`.
fn entry_hash(at: &HexCoord, tile: &HiveTile) -> (hash: u64)
    requires
        at@.within(REACH as int),
    ensures
        hash == digest(at@, tile@.last()),
{
    proof {
        tile.lemma_nonempty();
    }
    let top = tile.top();
    let mut h = DefaultHasher::new();
    let x = u64_to_le_bytes((at.x + REACH) as u64);
    h.write(x.as_slice());
    let y = u64_to_le_bytes((at.y + REACH) as u64);
    h.write(y.as_slice());
    let mut piece: Vec<u8> = Vec::new();
    piece.push(if *top.team() { 1u8 } else { 0u8 });
    piece.push(match top.tile_type() {
        TileType::Queen => 0u8,
        TileType::Ant => 1u8,
    });
    h.write(piece.as_slice());
    proof {
        let p = tile@.last();
        let owner = if p.team {
            1u8
        } else {
            0u8
        };
        let kind = match p.kind {
            TileType::Queen => 0u8,
            TileType::Ant => 1u8,
        };
        assert(piece@ =~= seq![owner, kind]);
        assert(h@ =~= seq![x@, y@, seq![owner, kind]]);
    }
    h.finish()
}

/// Adding a fingerprint with wraparound keeps the sum cut to 64 bits.
proof fn lemma_wrapping_sum(sum: int, part: u64)
    ensures
        (((sum % 0x1_0000_0000_0000_0000) as u64).wrapping_add(part)) as int == (sum + part)
            % 0x1_0000_0000_0000_0000,
{
}

/// The cell of a recorded queen.
pub open spec fn cell_of(queen: Option<HexCoord>) -> Option<Hex> {
    match queen {
        Some(c) => Some(c@),
        None => None,
    }
}

#[derive(Debug)]
pub struct GameState {
    turn_count: usize,
    tiles: TileStore,
    pieces: (PieceBag, PieceBag),
    queen_location: (Option<HexCoord>, Option<HexCoord>),
}

impl View for GameState {
    type V = Board;

    closed spec fn view(&self) -> Board {
        Board {
            plies: self.turn_count as nat,
            tiles: self.tiles@.map_values(|stack: Seq<Piece>| stack.last()),
            bags: (self.pieces.0@, self.pieces.1@),
            queens: (cell_of(self.queen_location.0), cell_of(self.queen_location.1)),
        }
    }
}

impl Clone for GameState {
    fn clone(&self) -> (state: GameState)
        ensures
            state.wf() == self.wf(),
            state@ == self@,
    {
        GameState {
            turn_count: self.turn_count,
            tiles: self.tiles.clone(),
            pieces: (self.pieces.0, self.pieces.1),
            queen_location: (self.queen_location.0, self.queen_location.1),
        }
    }
}

impl GameState {
    /// The state is that of a game: its position is, each tile is a single
    /// piece, and the ply is no later than `MAX_PLIES`.
    pub closed spec fn wf(&self) -> bool {
        &&& self.tiles.wf()
        &&& forall|h: Hex| self.tiles@.contains_key(h) ==> (#[trigger] self.tiles@[h]).len() == 1
        &&& self@.wf()
        &&& self.turn_count <= MAX_PLIES
    }

    /// What a caller may know of a state of a game.
    pub proof fn lemma_wf(&self)
        requires
            self.wf(),
        ensures
            self@.wf(),
            self@.plies <= MAX_PLIES,
            in_reach(self@.cells()),
    {
    }

    pub fn new() -> (state: GameState)
        ensures
            state.wf(),
            state@ == Board::empty(),
    {
        let state = GameState {
            turn_count: 0,
            tiles: TileStore::with_capacity(STARTING_TOTAL * 2),
            pieces: (PieceBag::new(), PieceBag::new()),
            queen_location: (None, None),
        };
        assert(state@.tiles =~= Map::empty());
        state
    }

    /// The fingerprint of the position, for the search's memo. It does not
    /// depend on the order in which the tiles are kept.
    pub fn get_hash(&self) -> (hash: u64)
        requires
            self.wf(),
        ensures
            hash == self@.hash(),
    {
        proof {
            self.tiles.lemma_keys();
        }
        let ghost keys = self.tiles.keys();
        let n = self.tiles.len();
        let mut hash = 0u64;
        let mut i: usize = 0;
        while i < n
            invariant
                i <= n,
                n == keys.len(),
                keys == self.tiles.keys(),
                self.wf(),
                forall|k: int| 0 <= k < keys.len() ==> self@.tiles.contains_key(#[trigger] keys[k]),
                hash == digest_sum_listed(keys.take(i as int), self@.tiles) % 0x1_0000_0000_0000_0000,
            decreases n - i,
        {
            let loc = self.tiles.key_at(i);
            let tile = self.tiles.tile_at(i);
            proof {
                assert(loc@ == keys[i as int]);
                assert(self@.tiles.contains_key(loc@));
                let upto = keys.take(i as int + 1);
                assert(upto.drop_last() =~= keys.take(i as int));
                assert(upto.last() == keys[i as int]);
                lemma_wrapping_sum(
                    digest_sum_listed(keys.take(i as int), self@.tiles),
                    digest(loc@, self@.tiles[loc@]),
                );
            }
            hash = hash.wrapping_add(entry_hash(&loc, tile));
            i += 1;
        }
        proof {
            assert(keys.take(n as int) =~= keys);
            assert(keys.to_set() =~= self@.tiles.dom());
            law_hash_any_order(keys, self@.tiles);
            lemma_wrapping_sum(digest_sum_listed(keys, self@.tiles), 1);
        }
        if self.turn() {
            hash = hash.wrapping_add(1);
        }
        hash
    }

    /// The rectangle of the display grid that frames the tiles: its least
    /// column and row, then its greatest.
    pub fn get_square_bounds(&self) -> (bounds: (isize, isize, isize, isize))
        requires
            self.wf(),
        ensures
            self@.framed(bounds.0 as int, bounds.1 as int, bounds.2 as int, bounds.3 as int),
    {
        proof {
            self.tiles.lemma_keys();
        }
        let ghost keys = self.tiles.keys();
        let n = self.tiles.len();
        let (mut x_min, mut y_min, mut x_max, mut y_max): (isize, isize, isize, isize) = (
            0,
            0,
            0,
            0,
        );
        let mut i: usize = 0;
        while i < n
            invariant
                i <= n,
                n == keys.len(),
                keys == self.tiles.keys(),
                self.wf(),
                forall|k: int| 0 <= k < keys.len() ==> self@.tiles.contains_key(#[trigger] keys[k]),
                i == 0 ==> x_min == 0 && x_max == 0 && y_min == 0 && y_max == 0,
                -3 * REACH <= x_min <= x_max <= 3 * REACH,
                -REACH <= y_min <= y_max <= REACH,
                forall|k: int|
                    0 <= k < i ==> x_min <= (#[trigger] keys[k]).square().0 <= x_max && y_min
                        <= keys[k].square().1 <= y_max,
                i > 0 ==> exists|k: int| 0 <= k < i && (#[trigger] keys[k]).square().0 == x_min,
                i > 0 ==> exists|k: int| 0 <= k < i && (#[trigger] keys[k]).square().0 == x_max,
                i > 0 ==> exists|k: int| 0 <= k < i && (#[trigger] keys[k]).square().1 == y_min,
                i > 0 ==> exists|k: int| 0 <= k < i && (#[trigger] keys[k]).square().1 == y_max,
            decreases n - i,
        {
            let loc = self.tiles.key_at(i);
            assert(loc@ == keys[i as int]);
            assert(self@.tiles.contains_key(loc@));
            let (x, y) = loc.to_square();
            if i == 0 {
                x_min = x;
                x_max = x;
                y_min = y;
                y_max = y;
            } else {
                if x < x_min {
                    x_min = x
                }
                if x > x_max {
                    x_max = x
                }
                if y < y_min {
                    y_min = y
                }
                if y > y_max {
                    y_max = y
                }
            }
            i += 1;
        }
        proof {
            if n == 0 {
                assert(self@.cells() =~= Set::empty());
            } else {
                assert(self@.cells().contains(keys[0]));
                assert forall|h: Hex| self@.tiles.contains_key(h) implies x_min <= h.square().0
                    <= x_max && y_min <= h.square().1 <= y_max by {
                    assert(keys.contains(h));
                    let k = choose|k: int| 0 <= k < keys.len() && keys[k] == h;
                    assert(x_min <= keys[k].square().0);
                }
            }
        }
        (x_min - 2, y_min - 1, x_max + 2, y_max + 1)
    }

    /// The tiles as they are shown on the display grid that `bounds` frames:
    /// for each tile its column and row on the grid, counted from 0, its
    /// owner and the letter of its kind.
    pub fn display_tiles(&self, bounds: (isize, isize, isize, isize)) -> (shown: Vec<
        (usize, usize, bool, char),
    >)
        requires
            self.wf(),
            self@.framed(bounds.0 as int, bounds.1 as int, bounds.2 as int, bounds.3 as int),
        ensures
            shown.len() == self@.cells().len(),
            forall|i: int|
                0 <= i < shown.len() ==> (#[trigger] shown[i]).0 <= bounds.2 - bounds.0 && shown[i].1
                    <= bounds.3 - bounds.1,
            forall|i: int|
                0 <= i < shown.len() ==> exists|h: Hex|
                    self@.tiles.contains_key(h) && (
                        (#[trigger] shown[i]).0 as int,
                        shown[i].1 as int,
                        shown[i].2,
                        shown[i].3,
                    ) == self@.shown(bounds.0 as int, bounds.1 as int, h),
            forall|h: Hex|
                self@.tiles.contains_key(h) ==> exists|i: int|
                    0 <= i < shown.len() && (
                        (#[trigger] shown[i]).0 as int,
                        shown[i].1 as int,
                        shown[i].2,
                        shown[i].3,
                    ) == self@.shown(bounds.0 as int, bounds.1 as int, h),
    {
        proof {
            self.tiles.lemma_keys();
            assert(self@.tiles.dom() =~= self.tiles@.dom());
        }
        let ghost keys = self.tiles.keys();
        let n = self.tiles.len();
        let mut shown: Vec<(usize, usize, bool, char)> = Vec::with_capacity(n);
        let mut i: usize = 0;
        while i < n
            invariant
                i <= n,
                n == keys.len(),
                keys == self.tiles.keys(),
                self.wf(),
                self@.framed(bounds.0 as int, bounds.1 as int, bounds.2 as int, bounds.3 as int),
                forall|k: int| 0 <= k < keys.len() ==> self@.tiles.contains_key(#[trigger] keys[k]),
                shown.len() == i,
                forall|k: int|
                    0 <= k < i ==> (
                        (#[trigger] shown[k]).0 as int,
                        shown[k].1 as int,
                        shown[k].2,
                        shown[k].3,
                    ) == self@.shown(bounds.0 as int, bounds.1 as int, keys[k]),
                forall|k: int|
                    0 <= k < i ==> (#[trigger] shown[k]).0 <= bounds.2 - bounds.0 && shown[k].1
                        <= bounds.3 - bounds.1,
            decreases n - i,
        {
            let loc = self.tiles.key_at(i);
            let top = self.tiles.tile_at(i).top();
            proof {
                assert(loc@ == keys[i as int]);
                assert(self@.tiles.contains_key(loc@));
                assert(self@.cells().contains(loc@));
                assert(!(self@.cells() =~= Set::<Hex>::empty()));
                let left = choose|h: Hex|
                    self@.tiles.contains_key(h) && h.square().0 == bounds.0 + 2;
                let low = choose|h: Hex|
                    self@.tiles.contains_key(h) && h.square().1 == bounds.1 + 1;
                assert(left.within(REACH as int) && low.within(REACH as int));
            }
            let (x, y) = loc.to_square();
            let column = (x as i64 - bounds.0 as i64) as usize;
            let row = (y as i64 - bounds.1 as i64) as usize;
            shown.push((column, row, *top.team(), top.tile_type().character()));
            i += 1;
        }
        proof {
            assert forall|h: Hex| self@.tiles.contains_key(h) implies exists|i: int|
                0 <= i < shown.len() && (
                    (#[trigger] shown[i]).0 as int,
                    shown[i].1 as int,
                    shown[i].2,
                    shown[i].3,
                ) == self@.shown(bounds.0 as int, bounds.1 as int, h) by {
                assert(keys.contains(h));
                let k = choose|k: int| 0 <= k < keys.len() && keys[k] == h;
                assert((shown[k].0 as int, shown[k].1 as int, shown[k].2, shown[k].3)
                    == self@.shown(bounds.0 as int, bounds.1 as int, h));
            }
            assert forall|i: int| 0 <= i < shown.len() implies exists|h: Hex|
                self@.tiles.contains_key(h) && (
                    (#[trigger] shown[i]).0 as int,
                    shown[i].1 as int,
                    shown[i].2,
                    shown[i].3,
                ) == self@.shown(bounds.0 as int, bounds.1 as int, h) by {
                assert(self@.tiles.contains_key(keys[i]));
            }
        }
        shown
    }

    /// The cell that is shown in the `column`-th column and the `row`-th row
    /// of the display grid, both counted from 1, if a cell is shown there.
    pub fn cell_on_display(&self, column: usize, row: usize) -> (cell: Option<HexCoord>)
        requires
            self.wf(),
        ensures
            forall|x_min: int, y_min: int, x_max: int, y_max: int|
                #![trigger self@.framed(x_min, y_min, x_max, y_max)]
                self@.framed(x_min, y_min, x_max, y_max) ==> match cell {
                    Some(c) => c@.square() == (column + x_min - 1, row + y_min - 1),
                    None => forall|c: HexCoord|
                        #![trigger c@.square()]
                        c@.square() != (column + x_min - 1, row + y_min - 1),
                },
    {
        let bounds = self.get_square_bounds();
        proof {
            self@.lemma_framed_once(bounds.0 as int, bounds.1 as int, bounds.2 as int, bounds.3 as int);
        }
        let x: i128 = column as i128 + bounds.0 as i128 - 1;
        let y: i128 = row as i128 + bounds.1 as i128 - 1;
        let d = x - y;
        if d % 2 != 0 {
            return None;
        }
        let half = d / 2;
        if half < isize::MIN as i128 || half > isize::MAX as i128 || y < isize::MIN as i128 || y
            > isize::MAX as i128 {
            return None;
        }
        Some(HexCoord { x: half as isize, y: y as isize })
    }

    pub fn turn_count(&self) -> (plies: usize)
        ensures
            plies == self@.plies,
    {
        self.turn_count
    }

    /// Who moves: `true` for the player of the even plies.
    pub fn turn(&self) -> (turn: bool)
        ensures
            turn == self@.turn(),
    {
        self.turn_count % 2 == 0
    }

    /// The bag of the player to move.
    pub fn turn_piece_bag(&self) -> (bag: &PieceBag)
        ensures
            bag@ == self@.bag_of(self@.turn()),
    {
        if self.turn() {
            &self.pieces.0
        } else {
            &self.pieces.1
        }
    }

    /// Whether the two states hold the same position: the same ply, tiles,
    /// bags and queens.
    pub fn same_position(&self, other: &GameState) -> (same: bool)
        requires
            self.wf(),
            other.wf(),
        ensures
            same == (self@ == other@),
    {
        if self.turn_count != other.turn_count || self.queen_location.0 != other.queen_location.0
            || self.queen_location.1 != other.queen_location.1 {
            return false;
        }
        if self.pieces.0.has_queen() != other.pieces.0.has_queen() || self.pieces.0.ants()
            != other.pieces.0.ants() || self.pieces.1.has_queen() != other.pieces.1.has_queen()
            || self.pieces.1.ants() != other.pieces.1.ants() {
            return false;
        }
        proof {
            self.tiles.lemma_keys();
            other.tiles.lemma_keys();
            assert(self@.tiles.dom() =~= self.tiles@.dom());
            assert(other@.tiles.dom() =~= other.tiles@.dom());
        }
        if self.tiles.len() != other.tiles.len() {
            return false;
        }
        let ghost keys = self.tiles.keys();
        let n = self.tiles.len();
        let mut i: usize = 0;
        while i < n
            invariant
                i <= n,
                n == keys.len(),
                keys == self.tiles.keys(),
                self.wf(),
                other.wf(),
                forall|k: int| 0 <= k < keys.len() ==> self@.tiles.contains_key(#[trigger] keys[k]),
                forall|k: int|
                    0 <= k < i ==> other@.tiles.contains_key(#[trigger] keys[k])
                        && other@.tiles[keys[k]] == self@.tiles[keys[k]],
            decreases n - i,
        {
            let loc = self.tiles.key_at(i);
            let tile = self.tiles.tile_at(i).top();
            assert(loc@ == keys[i as int]);
            match other.tiles.get(&loc) {
                Some(found) => {
                    let there = found.top();
                    if *tile.team() != *there.team() || *tile.tile_type() != *there.tile_type() {
                        assert(self@.tiles[loc@] != other@.tiles[loc@]);
                        return false;
                    }
                },
                None => {
                    assert(self@.tiles.contains_key(loc@));
                    assert(!other@.tiles.contains_key(loc@));
                    return false;
                },
            }
            i += 1;
        }
        proof {
            assert(self@.tiles.dom() =~= self.tiles@.dom());
            assert(other@.tiles.dom() =~= other.tiles@.dom());
            assert forall|h: Hex| #[trigger]
                self@.tiles.dom().contains(h) implies other@.tiles.dom().contains(h)
                && other@.tiles[h] == self@.tiles[h] by {
                assert(keys.contains(h));
                let k = choose|k: int| 0 <= k < keys.len() && keys[k] == h;
                assert(other@.tiles.contains_key(keys[k]));
            }
            assert(self@.tiles.dom().subset_of(other@.tiles.dom()));
            vstd::set_lib::lemma_subset_equality(self@.tiles.dom(), other@.tiles.dom());
            assert(self@.tiles =~= other@.tiles);
            assert(self.pieces.0@ == other.pieces.0@);
            assert(self.pieces.1@ == other.pieces.1@);
        }
        true
    }

    /// The tiles on the board, each a single piece.
    pub fn tiles(&self) -> (tiles: &TileStore)
        requires
            self.wf(),
        ensures
            tiles.wf(),
            forall|h: Hex| tiles@.contains_key(h) <==> self@.tiles.contains_key(h),
            forall|h: Hex| tiles@.contains_key(h) ==> #[trigger] tiles@[h] == seq![self@.tiles[h]],
    {
        proof {
            assert forall|h: Hex| self.tiles@.contains_key(h) implies #[trigger] self.tiles@[h]
                == seq![self@.tiles[h]] by {
                assert(self.tiles@[h] =~= seq![self.tiles@[h].last()]);
            }
        }
        &self.tiles
    }

    fn force_queen(&self) -> (forced: bool)
        ensures
            forced == self@.force_queen(),
    {
        self.turn_count == 6 || self.turn_count == 7
    }

    fn set_queen_location(&mut self, location: HexCoord)
        ensures
            final(self).turn_count == old(self).turn_count,
            final(self).tiles == old(self).tiles,
            final(self).pieces == old(self).pieces,
            (cell_of(final(self).queen_location.0), cell_of(final(self).queen_location.1)) == old(
                self,
            )@.with_queen(old(self)@.turn(), Some(location@)),
    {
        if self.turn() {
            self.queen_location.0 = Some(location);
        } else {
            self.queen_location.1 = Some(location);
        }
    }

    fn unset_queen_location(&mut self)
        ensures
            final(self).turn_count == old(self).turn_count,
            final(self).tiles == old(self).tiles,
            final(self).pieces == old(self).pieces,
            (cell_of(final(self).queen_location.0), cell_of(final(self).queen_location.1)) == old(
                self,
            )@.with_queen(old(self)@.turn(), None),
    {
        if self.turn() {
            self.queen_location.0 = None;
        } else {
            self.queen_location.1 = None;
        }
    }

    /// Makes the move, without asking whether the rules allow it. The move
    /// can be taken back by `undo_move`, which then gives the state as it
    /// was; and a legal move leaves the hive in one piece.
    pub fn apply_move(&mut self, to_move: Move)
        requires
            old(self).wf(),
            old(self)@.admits(to_move@),
            old(self)@.plies < MAX_PLIES,
        ensures
            final(self).wf(),
            final(self)@ == old(self)@.after(to_move@),
            final(self)@.follows(to_move@),
            final(self)@.before(to_move@) == old(self)@,
            old(self)@.legal(to_move@) && one_hive(old(self)@.cells()) ==> one_hive(
                final(self)@.cells(),
            ),
    {
        proof {
            old(self)@.lemma_after_wf(to_move@);
            crate::board::law_undo_restores(old(self)@, to_move@);
            if old(self)@.legal(to_move@) && one_hive(old(self)@.cells()) {
                crate::board::law_hive_stays_whole(old(self)@, to_move@);
            }
        }
        match to_move {
            Move::Place(tile_type, location) => {
                if matches!(tile_type, TileType::Queen) {
                    self.set_queen_location(location);
                }
                if self.turn() {
                    self.pieces.0.use_piece(tile_type);
                } else {
                    self.pieces.1.use_piece(tile_type);
                }
                let piece = HiveTile::new(self.turn(), tile_type);
                self.tiles.insert(location, piece);
            },
            Move::Move(from, to) => {
                let removed = self.tiles.remove(&from).unwrap();
                if matches!(removed.tile_type(), TileType::Queen) {
                    self.set_queen_location(to);
                }
                proof {
                    assert(removed@ =~= seq![removed@.last()]);
                }
                self.tiles.insert(to, removed);
            },
        };
        self.turn_count += 1;
        proof {
            assert(self@.tiles =~= old(self)@.after(to_move@).tiles);
            assert(self@ == old(self)@.after(to_move@));
        }
    }

    /// Takes back the move that was made last.
    pub fn undo_move(&mut self, to_move: Move)
        requires
            old(self).wf(),
            old(self)@.follows(to_move@),
        ensures
            final(self).wf(),
            final(self)@ == old(self)@.before(to_move@),
    {
        proof {
            let was = old(self)@.before(to_move@);
            assert(was.after(to_move@).tiles == old(self)@.tiles);
            if let Action::Move(from, to) = to_move@ {
                assert(was.tiles.remove(from).insert(to, was.tiles[from]).contains_key(to));
            }
        }
        self.turn_count -= 1;
        match to_move {
            Move::Place(tile_type, location) => {
                if matches!(tile_type, TileType::Queen) {
                    self.unset_queen_location();
                }
                self.tiles.remove(&location);
                if self.turn() {
                    self.pieces.0.unuse_piece(tile_type);
                } else {
                    self.pieces.1.unuse_piece(tile_type);
                }
            },
            Move::Move(from, to) => {
                let removed = self.tiles.remove(&to).unwrap();
                if matches!(removed.tile_type(), TileType::Queen) {
                    self.set_queen_location(from);
                }
                proof {
                    assert(removed@ =~= seq![removed@.last()]);
                }
                self.tiles.insert(from, removed);
            },
        };
        proof {
            assert(self@.tiles =~= old(self)@.before(to_move@).tiles);
            assert(self@ == old(self)@.before(to_move@));
        }
    }

    /// Lets the ply go by without a move.
    pub fn pass(&mut self)
        requires
            old(self).wf(),
            old(self)@.plies < MAX_PLIES,
        ensures
            final(self).wf(),
            final(self)@ == old(self)@.passed(),
    {
        self.turn_count += 1;
    }

    /// Takes back a pass.
    pub fn unpass(&mut self)
        requires
            old(self).wf(),
            old(self)@.plies > 0,
            old(self)@.unpassed().wf(),
        ensures
            final(self).wf(),
            final(self)@ == old(self)@.unpassed(),
    {
        self.turn_count -= 1;
    }

    /// Whether the hive would be in pieces once the tile on `moved_from` had
    /// gone to `moved_to`.
    pub fn is_broken(&self, moved_from: &HexCoord, moved_to: &HexCoord) -> (broken: bool)
        requires
            self.wf(),
            moved_to@.within(REACH + 1),
        ensures
            broken == !one_hive(self@.cells().remove(moved_from@).insert(moved_to@)),
    {
        let walk = Walk::Hive { from: *moved_from, to: *moved_to };
        let mut start: Vec<HexCoord> = Vec::new();
        start.push(*moved_to);
        let ghost seeds = start.deep_view().to_set();
        let ghost cells = self@.cells().remove(moved_from@).insert(moved_to@);
        let ghost g = hive(cells);
        proof {
            self.tiles.lemma_keys();
            assert(self.tiles@.dom() =~= self@.cells());
            assert(start.deep_view() =~= seq![moved_to@]);
            assert(start.deep_view()[0] == moved_to@);
            assert forall|h: Hex| seeds.contains(h) implies h == moved_to@ by {
                let k = choose|k: int| 0 <= k < start.deep_view().len() && start.deep_view()[k] == h;
            }
        }
        let visited = self.ant(&walk, &start);
        let here = if self.tiles.contains_key(moved_from) {
            self.tiles.len() - 1
        } else {
            self.tiles.len()
        };
        let whole = if *moved_to != *moved_from && self.tiles.contains_key(moved_to) {
            visited.len() == here
        } else {
            visited.len() >= 1 && visited.len() - 1 == here
        };
        proof {
            let seen = visited.deep_view();
            assert(g.reaches_in(moved_to@, moved_to@, 0));
            assert(g.reaches(moved_to@, moved_to@));
            assert(g.reached(seeds, moved_to@));
            assert(seen.contains(moved_to@));
            assert forall|i: int| 0 <= i < seen.len() implies cells.contains(#[trigger] seen[i]) by {
                assert(seen.contains(seen[i]));
                lemma_reached_node(g, seeds, seen[i]);
            }
            lemma_listed_len(seen, cells);
            lemma_hive_symmetric(cells);
            if whole {
                assert(seen.len() == cells.len());
                assert forall|b: Hex| g.nodes.contains(b) implies #[trigger] g.reaches(
                    moved_to@,
                    b,
                ) by {
                    assert(seen.to_set().contains(b));
                    assert(seen.contains(b));
                    assert(g.reached(seeds, b));
                    let a = choose|a: Hex| seeds.contains(a) && #[trigger] g.reaches(a, b);
                    assert(a == moved_to@);
                }
                g.lemma_star(moved_to@);
            } else {
                assert(seen.len() < cells.len());
                if one_hive(cells) {
                    assert forall|b: Hex| cells.contains(b) implies seen.to_set().contains(b) by {
                        assert(g.reaches(moved_to@, b));
                        assert(g.reached(seeds, b));
                    }
                    assert(cells.subset_of(seen.to_set()));
                    seen.unique_seq_to_set();
                    vstd::seq_lib::seq_to_set_is_finite(seen);
                    vstd::set_lib::lemma_len_subset(cells, seen.to_set());
                }
            }
        }
        !whole
    }

    /// Every cell that the walk reaches from a seed, each once.
    fn ant(&self, walk: &Walk, seeds: &Vec<HexCoord>) -> (visited: Vec<HexCoord>)
        requires
            self.wf(),
            walk.wf(),
            forall|i: int| 0 <= i < seeds.len() ==> (#[trigger] seeds[i]).has_neighbors(),
        ensures
            visited.deep_view().no_duplicates(),
            forall|h: Hex|
                visited.deep_view().contains(h) <==> walk.graph(self@.cells()).reached(
                    seeds.deep_view().to_set(),
                    h,
                ),
    {
        proof {
            assert(self.tiles@.dom() =~= self@.cells());
        }
        explore(&self.tiles, walk, seeds)
    }

    /// Whether a tile of the other player stands on one of the six cells
    /// around `c`.
    fn rival_around(&self, c: &HexCoord) -> (any: bool)
        requires
            self.wf(),
            c.has_neighbors(),
        ensures
            any == !(forall|i: int|
                0 <= i < 6 && self@.tiles.contains_key(#[trigger] c@.neighbor(i))
                    ==> self@.tiles[c@.neighbor(i)].team == self@.turn()),
    {
        let turn = self.turn();
        let around = c.surrounding();
        let mut i: usize = 0;
        while i < 6
            invariant
                i <= 6,
                self.wf(),
                turn == self@.turn(),
                forall|j: int| 0 <= j < 6 ==> (#[trigger] around[j])@ == c@.neighbor(j),
                forall|j: int|
                    0 <= j < i && self@.tiles.contains_key(#[trigger] c@.neighbor(j))
                        ==> self@.tiles[c@.neighbor(j)].team == turn,
            decreases 6 - i,
        {
            let s_surr = around[i];
            assert(s_surr@ == c@.neighbor(i as int));
            if let Some(tile) = self.tiles.get(&s_surr) {
                if *tile.top().team() != turn {
                    assert(self@.tiles[c@.neighbor(i as int)].team != turn);
                    return true;
                }
            }
            i += 1;
        }
        false
    }

    /// The cells on which the player to move may place a piece, each once
    /// and in ascending order.
    pub fn get_placeable_locations(&self) -> (locations: Vec<HexCoord>)
        requires
            self.wf(),
        ensures
            ascending_cells(locations.deep_view()),
            forall|h: Hex| locations.deep_view().contains(h) <==> self@.placeable(h),
    {
        let turn = self.turn();
        let mut locations: Vec<HexCoord> = Vec::new();
        proof {
            self.tiles.lemma_keys();
        }
        let ghost keys = self.tiles.keys();
        let n = self.tiles.len();
        let mut i: usize = 0;
        while i < n
            invariant
                i <= n,
                n == keys.len(),
                keys == self.tiles.keys(),
                self.wf(),
                turn == self@.turn(),
                forall|k: int| 0 <= k < keys.len() ==> self@.tiles.contains_key(#[trigger] keys[k]),
                ascending_cells(locations.deep_view()),
                forall|h: Hex|
                    #![trigger locations.deep_view().contains(h)]
                    locations.deep_view().contains(h) <==> self@.placeable(h) && beside_own(
                        self@,
                        keys,
                        i as int,
                        h,
                    ),
            decreases n - i,
        {
            let location = self.tiles.key_at(i);
            let tile = self.tiles.tile_at(i);
            assert(location@ == keys[i as int]);
            assert(self@.tiles.contains_key(location@));
            if *tile.team() == turn {
                let around = location.surrounding();
                let mut j: usize = 0;
                while j < 6
                    invariant
                        j <= 6,
                        i < n,
                        n == keys.len(),
                        self.wf(),
                        turn == self@.turn(),
                        location@ == keys[i as int],
                        self@.tiles.contains_key(location@),
                        self@.tiles[location@].team == turn,
                        forall|a: int|
                            0 <= a < 6 ==> (#[trigger] around[a])@ == location@.neighbor(a),
                        ascending_cells(locations.deep_view()),
                        forall|h: Hex|
                            #![trigger locations.deep_view().contains(h)]
                            locations.deep_view().contains(h) <==> self@.placeable(h) && (beside_own(
                                self@,
                                keys,
                                i as int,
                                h,
                            ) || among(location@, j as int, h)),
                    decreases 6 - j,
                {
                    let surrounding = around[j];
                    assert(surrounding@ == location@.neighbor(j as int));
                    proof {
                        lemma_neighbor_within(location@, j as int, REACH as int);
                        lemma_opposite(location@, j as int);
                    }
                    let free = !self.tiles.contains_key(&surrounding) && !self.rival_around(
                        &surrounding,
                    );
                    let ghost before = locations.deep_view();
                    if free {
                        list_cell(&mut locations, surrounding);
                        proof {
                            assert(self@.tiles.contains_key(
                                surrounding@.neighbor(opposite(j as int)),
                            ));
                            assert(self@.placeable(surrounding@));
                        }
                    }
                    proof {
                        lemma_among(location@, j as int);
                        let after = locations.deep_view();
                        assert(self.tiles@.contains_key(surrounding@) == self@.tiles.contains_key(
                            surrounding@,
                        ));
                        assert forall|h: Hex| #![trigger after.contains(h)]
                            after.contains(h) <==> self@.placeable(h) && (beside_own(
                                self@,
                                keys,
                                i as int,
                                h,
                            ) || among(location@, j as int + 1, h)) by {
                            if h == surrounding@ {
                                if !free {
                                    assert(after == before);
                                    assert(!self@.placeable(h));
                                }
                            } else {
                                assert(after.contains(h) == before.contains(h));
                            }
                        }
                    }
                    j += 1;
                }
            }
            proof {
                lemma_beside_own(self@, keys, i as int);
            }
            i += 1;
        }
        proof {
            assert forall|h: Hex| locations.deep_view().contains(h) <==> self@.placeable(h) by {
                if self@.placeable(h) {
                    let a = choose|a: int|
                        0 <= a < 6 && self@.tiles.contains_key(#[trigger] h.neighbor(a))
                            && self@.tiles[h.neighbor(a)].team == self@.turn();
                    let o = h.neighbor(a);
                    assert(keys.contains(o));
                    let k = choose|k: int| 0 <= k < keys.len() && keys[k] == o;
                    lemma_opposite(h, a);
                    assert(keys[k].neighbor(opposite(a)) == h);
                    assert(own_neighbor(self@, keys, k, opposite(a), h));
                }
            }
        }
        locations
    }

    /// Lists each way in which the tile on `from` can go without breaking
    /// the hive.
    fn list_movements(&self, moves: &mut Vec<Move>, from: HexCoord, kind: TileType)
        requires
            self.wf(),
            self@.tiles.contains_key(from@),
            self@.tiles[from@].kind == kind,
            ascending(old(moves).deep_view()),
        ensures
            ascending(final(moves).deep_view()),
            forall|x: Action|
                #![trigger final(moves).deep_view().contains(x)]
                final(moves).deep_view().contains(x) <==> old(moves).deep_view().contains(x) || (
                x matches Action::Move(a, b) && a == from@ && kind.reach(self@.cells(), a, b)
                    && one_hive(self@.cells().remove(a).insert(b))),
    {
        let ghost before = moves.deep_view();
        let ghost cells = self@.cells();
        proof {
            assert(self.tiles@.dom() =~= cells);
        }
        let possible_moves = kind.get_moves(&from, &self.tiles);
        let ghost dests = possible_moves.deep_view();
        let mut i: usize = 0;
        while i < possible_moves.len()
            invariant
                i <= possible_moves.len(),
                self.wf(),
                cells == self@.cells(),
                dests == possible_moves.deep_view(),
                self@.tiles.contains_key(from@),
                self@.tiles[from@].kind == kind,
                forall|h: Hex| dests.contains(h) <==> kind.reach(cells, from@, h),
                ascending(moves.deep_view()),
                forall|x: Action|
                    #![trigger moves.deep_view().contains(x)]
                    moves.deep_view().contains(x) <==> before.contains(x) || shifts(
                        x,
                        cells,
                        from@,
                        dests,
                        i as int,
                    ),
            decreases possible_moves.len() - i,
        {
            let m = possible_moves[i];
            proof {
                assert(dests[i as int] == m@);
                assert(dests.contains(m@));
                self@.lemma_reach_near(from@, m@);
                lemma_shifts(cells, from@, dests, i as int);
            }
            let allowed = !self.is_broken(&from, &m);
            if allowed {
                let step = Move::Move(from, m);
                assert(step@ == Action::Move(from@, dests[i as int]));
                list_move(moves, step);
            }
            i += 1;
        }
        proof {
            lemma_shifts_all(cells, from@, dests);
            assert(i as int == dests.len() as int);
            assert forall|x: Action| #![trigger moves.deep_view().contains(x)]
                moves.deep_view().contains(x) <==> before.contains(x) || (
                x matches Action::Move(a, b) && a == from@ && kind.reach(cells, a, b) && one_hive(
                    cells.remove(a).insert(b),
                )) by {
                assert(moves.deep_view().contains(x) <==> before.contains(x) || shifts(
                    x,
                    cells,
                    from@,
                    dests,
                    dests.len() as int,
                ));
                if let Action::Move(a, b) = x {
                    assert(dests.contains(b) <==> kind.reach(cells, from@, b));
                }
            }
        }
    }

    /// The moves that the rules allow the player to move, each once and in
    /// order. Where there is none, the player must pass. Each of the moves
    /// can be made by `apply_move`: the moves are asked for before the last
    /// ply that the library follows, where none could be made.
    pub fn get_possible_moves(&self) -> (moves: Vec<Move>)
        requires
            self.wf(),
            self@.plies < MAX_PLIES,
        ensures
            self@.lists(moves.deep_view()),
            moves.deep_view() == self@.moves(),
            forall|m: Action| #[trigger] moves.deep_view().contains(m) ==> self@.admits(m),
    {
        let placeable = self.turn_piece_bag().get_place_options(self.force_queen());
        let mut moves: Vec<Move> = Vec::new();
        assert(moves.deep_view() =~= Seq::<Action>::empty());

        if self.turn_count == 0 {
            list_placements(&mut moves, &placeable, HexCoord::new(0, 0));
            proof {
                self@.lemma_moves(moves.deep_view());
            }
            return moves;
        }
        if self.turn_count == 1 {
            list_placements(&mut moves, &placeable, HexCoord::new(1, 0));
            proof {
                self@.lemma_moves(moves.deep_view());
            }
            return moves;
        }
        let placeable_locations = self.get_placeable_locations();
        let ghost spots = placeable_locations.deep_view();
        let mut a: usize = 0;
        while a < placeable_locations.len()
            invariant
                a <= placeable_locations.len(),
                spots == placeable_locations.deep_view(),
                ascending(moves.deep_view()),
                forall|x: Action|
                    #![trigger moves.deep_view().contains(x)]
                    moves.deep_view().contains(x) <==> offers(x, placeable@, spots, a as int),
            decreases placeable_locations.len() - a,
        {
            let loc = placeable_locations[a];
            proof {
                assert(spots[a as int] == loc@);
                lemma_listed_upto(spots, a as int);
            }
            list_placements(&mut moves, &placeable, loc);
            a += 1;
        }
        proof {
            assert forall|x: Action|
                moves.deep_view().contains(x) <==> (x is Place && self@.legal(x)) by {
                if let Action::Place(k, h) = x {
                    if spots.contains(h) {
                        let j = choose|j: int| 0 <= j < spots.len() && spots[j] == h;
                        assert(listed_upto(spots, spots.len() as int, h));
                    }
                    if listed_upto(spots, spots.len() as int, h) {
                        let j = choose|j: int| 0 <= j < spots.len() && #[trigger] spots[j] == h;
                        assert(spots.contains(h));
                    }
                    assert(offers(x, placeable@, spots, spots.len() as int) <==> self@.legal(x));
                }
            }
        }
        if (self.turn() && self.queen_location.0.is_none()) || (!self.turn()
            && self.queen_location.1.is_none()) {
            proof {
                self@.lemma_moves(moves.deep_view());
            }
            return moves;
        }
        proof {
            self.tiles.lemma_keys();
        }
        let ghost keys = self.tiles.keys();
        let n = self.tiles.len();
        let mut i: usize = 0;
        while i < n
            invariant
                i <= n,
                n == keys.len(),
                keys == self.tiles.keys(),
                self.wf(),
                self@.plies >= 2,
                self@.queen_of(self@.turn()) is Some,
                forall|k: int| 0 <= k < keys.len() ==> self@.tiles.contains_key(#[trigger] keys[k]),
                ascending(moves.deep_view()),
                forall|x: Action|
                    #![trigger moves.deep_view().contains(x)]
                    moves.deep_view().contains(x) <==> self@.legal(x) && from_upto(
                        x,
                        keys,
                        i as int,
                    ),
            decreases n - i,
        {
            let loc = self.tiles.key_at(i);
            let tile = self.tiles.tile_at(i);
            proof {
                assert(loc@ == keys[i as int]);
                assert(self@.tiles.contains_key(loc@));
                lemma_listed_upto(keys, i as int);
            }
            if *tile.team() == self.turn() {
                self.list_movements(&mut moves, loc, *tile.tile_type());
            }
            i += 1;
        }
        proof {
            assert forall|x: Action| moves.deep_view().contains(x) <==> self@.legal(x) by {
                if let Action::Move(f, t) = x {
                    if self@.legal(x) {
                        assert(keys.contains(f));
                        let j = choose|j: int| 0 <= j < keys.len() && keys[j] == f;
                        assert(listed_upto(keys, keys.len() as int, f));
                    }
                }
            }
            self@.lemma_moves(moves.deep_view());
        }
        moves
    }

    /// How many of the six cells around `queen` are occupied.
    fn surroundings(&self, queen: &HexCoord) -> (count: isize)
        requires
            self.wf(),
            queen.has_neighbors(),
        ensures
            count == crowd(self@.cells(), queen@, 6),
    {
        let around = queen.surrounding();
        let mut count: isize = 0;
        let mut i: usize = 0;
        while i < 6
            invariant
                i <= 6,
                self.wf(),
                forall|j: int| 0 <= j < 6 ==> (#[trigger] around[j])@ == queen@.neighbor(j),
                count == crowd(self@.cells(), queen@, i as int),
                0 <= count <= i,
            decreases 6 - i,
        {
            let surround = around[i];
            assert(surround@ == queen@.neighbor(i as int));
            if self.tiles.get(&surround).is_some() {
                count += 1;
            }
            i += 1;
        }
        count
    }

    /// By how much the second player's queen is more surrounded than the
    /// first's, whether the first player has won, and whether the second has.
    pub fn score(&self) -> (score: (isize, bool, bool))
        requires
            self.wf(),
        ensures
            (score.0 as int, score.1, score.2) == self@.score(),
    {
        proof {
            crate::board::lemma_crowd(
                self@.cells(),
                cell_of(self.queen_location.0).unwrap_or(arbitrary()),
                6,
            );
            crate::board::lemma_crowd(
                self@.cells(),
                cell_of(self.queen_location.1).unwrap_or(arbitrary()),
                6,
            );
        }
        let mut white_surroundings: isize = 1;
        let mut black_win = false;
        if let Some(queen_location) = &self.queen_location.0 {
            white_surroundings = self.surroundings(queen_location);
            if white_surroundings == 6 {
                black_win = true;
            }
        }
        let mut black_surroundings: isize = 1;
        let mut white_win = false;
        if let Some(queen_location) = &self.queen_location.1 {
            black_surroundings = self.surroundings(queen_location);
            if black_surroundings == 6 {
                white_win = true;
            }
        }
        (black_surroundings - white_surroundings, white_win, black_win)
    }
}

} // verus!
