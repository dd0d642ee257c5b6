//! The position of a game as a mathematical value, and the rules on it.

use vstd::prelude::*;
use vstd::bytes::spec_u64_to_le_bytes;
use vstd::std_specs::hash::DefaultHasherAdditionalSpecFns;
use std::collections::hash_map::DefaultHasher;
use crate::hex_coord::{lemma_neighbor_within, lemma_opposite, opposite, Hex, REACH};
use crate::hive::{lemma_hive_attach, lemma_hive_small, lemma_reached_node, one_hive, rim};
use crate::hive_tile::Piece;
use crate::piece_bag::{lemma_options, Stock, STARTING_ANTS};
use crate::tile_types::{slides, TileType};

verus! {

/// What a player does on a ply, but for passing.
pub ghost enum Action {
    /// A piece of this kind comes from the bag onto this cell.
    Place(TileType, Hex),
    /// The tile on the first cell goes to the second.
    Move(Hex, Hex),
}

impl Action {
    /// The order in which moves are listed: placements first, by cell and
    /// then the queen before the ant; then movements, by the cell left and
    /// then by the cell reached.
    pub open spec fn before(self, other: Action) -> bool {
        match (self, other) {
            (Action::Place(k1, h1), Action::Place(k2, h2)) => h1.before(h2) || (h1 == h2 && k1
                == TileType::Queen && k2 == TileType::Ant),
            (Action::Place(_, _), Action::Move(_, _)) => true,
            (Action::Move(_, _), Action::Place(_, _)) => false,
            (Action::Move(a1, b1), Action::Move(a2, b2)) => a1.before(a2) || (a1 == a2 && b1.before(
                b2,
            )),
        }
    }
}

/// Each move of the list comes before all that follow it.
pub open spec fn ascending(list: Seq<Action>) -> bool {
    forall|i: int, j: int| 0 <= i < j < list.len() ==> (#[trigger] list[i]).before(#[trigger] list[j])
}

/// The order of moves is strict and total.
pub proof fn lemma_order(a: Action, b: Action, c: Action)
    ensures
        !a.before(a),
        a.before(b) && b.before(c) ==> a.before(c),
        a.before(b) || b.before(a) || a == b,
{
}

/// Two ascending lists of the same moves are one list.
pub proof fn lemma_ascending_unique(s: Seq<Action>, t: Seq<Action>)
    requires
        ascending(s),
        ascending(t),
        forall|m: Action| s.contains(m) <==> t.contains(m),
    ensures
        s == t,
    decreases s.len(),
{
    if s.len() == 0 {
        if t.len() > 0 {
            assert(t.contains(t[0]));
        }
        assert(s =~= t);
    } else {
        assert(s.contains(s[0]));
        let j = choose|j: int| 0 <= j < t.len() && t[j] == s[0];
        assert(t.contains(t[0]));
        let i = choose|i: int| 0 <= i < s.len() && s[i] == t[0];
        lemma_order(s[0], t[0], s[0]);
        assert(s[0] == t[0]);
        let s1 = s.drop_first();
        let t1 = t.drop_first();
        assert forall|m: Action| s1.contains(m) <==> t1.contains(m) by {
            if s1.contains(m) {
                let k = choose|k: int| 0 <= k < s1.len() && s1[k] == m;
                assert(s[k + 1] == m);
                assert(s[0].before(s[k + 1]));
                lemma_order(s[0], m, m);
                assert(t.contains(m));
                let l = choose|l: int| 0 <= l < t.len() && t[l] == m;
                assert(t1[l - 1] == m);
            }
            if t1.contains(m) {
                let k = choose|k: int| 0 <= k < t1.len() && t1[k] == m;
                assert(t[k + 1] == m);
                assert(t[0].before(t[k + 1]));
                lemma_order(t[0], m, m);
                assert(s.contains(m));
                let l = choose|l: int| 0 <= l < s.len() && s[l] == m;
                assert(s1[l - 1] == m);
            }
        }
        assert(ascending(s1)) by {
            assert forall|a: int, b: int| 0 <= a < b < s1.len() implies (#[trigger] s1[a]).before(
                #[trigger] s1[b],
            ) by {
                assert(s[a + 1].before(s[b + 1]));
            }
        }
        assert(ascending(t1)) by {
            assert forall|a: int, b: int| 0 <= a < b < t1.len() implies (#[trigger] t1[a]).before(
                #[trigger] t1[b],
            ) by {
                assert(t[a + 1].before(t[b + 1]));
            }
        }
        lemma_ascending_unique(s1, t1);
        assert(s =~= seq![s[0]] + s1);
        assert(t =~= seq![t[0]] + t1);
    }
}

/// Where the first piece of a game is placed.
pub open spec fn origin() -> Hex {
    Hex { x: 0, y: 0 }
}

/// Where the second piece of a game is placed.
pub open spec fn beside_origin() -> Hex {
    Hex { x: 1, y: 0 }
}

/// How many of the first `n` neighbours of `h` are occupied.
pub open spec fn crowd(cells: Set<Hex>, h: Hex, n: int) -> int
    decreases n,
{
    if n <= 0 {
        0
    } else {
        crowd(cells, h, n - 1) + if cells.contains(h.neighbor(n - 1)) {
            1int
        } else {
            0int
        }
    }
}

/// The count is full exactly when each of the neighbours is occupied, and
/// nothing exactly when none is.
pub proof fn lemma_crowd(cells: Set<Hex>, h: Hex, n: int)
    requires
        0 <= n,
    ensures
        0 <= crowd(cells, h, n) <= n,
        crowd(cells, h, n) == n <==> forall|i: int| 0 <= i < n ==> cells.contains(h.neighbor(i)),
        crowd(cells, h, n) == 0 <==> forall|i: int| 0 <= i < n ==> !cells.contains(h.neighbor(i)),
    decreases n,
{
    if n > 0 {
        lemma_crowd(cells, h, n - 1);
        if crowd(cells, h, n) == n {
            assert forall|i: int| 0 <= i < n implies cells.contains(h.neighbor(i)) by {
                if i < n - 1 {
                    assert(cells.contains(h.neighbor(i)));
                }
            }
        }
        if crowd(cells, h, n) == 0 {
            assert forall|i: int| 0 <= i < n implies !cells.contains(h.neighbor(i)) by {
                if i < n - 1 {
                    assert(!cells.contains(h.neighbor(i)));
                }
            }
        }
    }
}

/// The fingerprint of one tile: what the default hasher makes of the two
/// coordinates, each moved up by `REACH` and written as eight bytes, and of a
/// byte each for the owner and the kind.
pub open spec fn digest(h: Hex, p: Piece) -> u64 {
    DefaultHasher::spec_finish(
        seq![
            spec_u64_to_le_bytes((h.x + REACH) as u64),
            spec_u64_to_le_bytes((h.y + REACH) as u64),
            seq![
                if p.team {
                    1u8
                } else {
                    0u8
                },
                match p.kind {
                    TileType::Queen => 0u8,
                    TileType::Ant => 1u8,
                },
            ],
        ],
    )
}

/// The fingerprints of all tiles, added up.
pub open spec fn digest_sum(tiles: Map<Hex, Piece>) -> int {
    tiles.dom().fold(0int, |sum: int, h: Hex| sum + digest(h, tiles[h]))
}

/// The fingerprints of the tiles on the listed cells, added up in the order
/// of the list.
pub open spec fn digest_sum_listed(keys: Seq<Hex>, tiles: Map<Hex, Piece>) -> int
    decreases keys.len(),
{
    if keys.len() == 0 {
        0
    } else {
        digest_sum_listed(keys.drop_last(), tiles) + digest(keys.last(), tiles[keys.last()])
    }
}

/// In whatever order the tiles are listed, their fingerprints add up to the
/// same sum.
pub proof fn law_hash_any_order(keys: Seq<Hex>, tiles: Map<Hex, Piece>)
    requires
        keys.no_duplicates(),
        keys.to_set() == tiles.dom(),
    ensures
        digest_sum_listed(keys, tiles) == digest_sum(tiles),
{
    lemma_digest_sum_listed(keys, tiles);
}

proof fn lemma_digest_sum_listed(keys: Seq<Hex>, tiles: Map<Hex, Piece>)
    requires
        keys.no_duplicates(),
    ensures
        digest_sum_listed(keys, tiles) == keys.to_set().fold(
            0int,
            |sum: int, h: Hex| sum + digest(h, tiles[h]),
        ),
    decreases keys.len(),
{
    let f = |sum: int, h: Hex| sum + digest(h, tiles[h]);
    if keys.len() == 0 {
        assert(keys.to_set() =~= Set::<Hex>::empty());
        vstd::set::fold::lemma_fold_empty(0int, f);
    } else {
        let rest = keys.drop_last();
        let last = keys.last();
        lemma_digest_sum_listed(rest, tiles);
        vstd::seq_lib::seq_to_set_is_finite(rest);
        assert(!rest.to_set().contains(last)) by {
            if rest.contains(last) {
                let i = choose|i: int| 0 <= i < rest.len() && rest[i] == last;
                assert(keys[i] == keys[keys.len() - 1]);
            }
        }
        assert(keys.to_set() =~= rest.to_set().insert(last)) by {
            assert(keys =~= rest.push(last));
            vstd::seq_lib::lemma_seq_contains_after_push(rest, last, last);
            assert forall|h: Hex| keys.contains(h) <==> rest.contains(h) || h == last by {
                vstd::seq_lib::lemma_seq_contains_after_push(rest, last, h);
            }
        }
        assert(vstd::set::fold::is_fun_commutative(f));
        vstd::set::fold::lemma_fold_insert(rest.to_set(), 0int, f, last);
    }
}

/// A position: the ply, the tiles, what is left in the two bags, and where
/// the two queens stand. The first of each pair is that of the player who
/// moves on the even plies.
pub ghost struct Board {
    pub plies: nat,
    pub tiles: Map<Hex, Piece>,
    pub bags: (Stock, Stock),
    pub queens: (Option<Hex>, Option<Hex>),
}

impl Board {
    /// The position before the first ply.
    pub open spec fn empty() -> Board {
        Board {
            plies: 0,
            tiles: Map::empty(),
            bags: (Board::full_bag(), Board::full_bag()),
            queens: (None, None),
        }
    }

    /// Who moves: `true` for the player of the even plies.
    pub open spec fn turn(self) -> bool {
        self.plies % 2 == 0
    }

    pub open spec fn bag_of(self, team: bool) -> Stock {
        if team {
            self.bags.0
        } else {
            self.bags.1
        }
    }

    pub open spec fn queen_of(self, team: bool) -> Option<Hex> {
        if team {
            self.queens.0
        } else {
            self.queens.1
        }
    }

    /// The bags, with that of `team` replaced.
    pub open spec fn with_bag(self, team: bool, stock: Stock) -> (Stock, Stock) {
        if team {
            (stock, self.bags.1)
        } else {
            (self.bags.0, stock)
        }
    }

    /// The queens' cells, with that of `team` replaced.
    pub open spec fn with_queen(self, team: bool, queen: Option<Hex>) -> (Option<Hex>, Option<Hex>) {
        if team {
            (queen, self.queens.1)
        } else {
            (self.queens.0, queen)
        }
    }

    /// The occupied cells.
    pub open spec fn cells(self) -> Set<Hex> {
        self.tiles.dom()
    }

    /// On these plies a player who still holds the queen must place her.
    pub open spec fn force_queen(self) -> bool {
        self.plies == 6 || self.plies == 7
    }

    /// The kinds that the player to move may place.
    pub open spec fn options(self) -> Seq<TileType> {
        self.bag_of(self.turn()).options(self.force_queen())
    }

    /// The queen of `team` is in the bag or on the cell recorded for her.
    pub open spec fn queen_wf(self, team: bool) -> bool {
        let queen = Piece { team, kind: TileType::Queen };
        &&& self.bag_of(team).queen <==> self.queen_of(team) is None
        &&& self.queen_of(team) matches Some(q) ==> self.tiles.contains_key(q) && self.tiles[q]
            == queen
        &&& forall|h: Hex|
            self.tiles.contains_key(h) && self.tiles[h] == queen ==> self.queen_of(team) == Some(h)
    }

    /// A bag from which nothing has been taken.
    pub open spec fn full_bag() -> Stock {
        Stock { queen: true, ants: STARTING_ANTS as nat }
    }

    /// What holds of every position of a game. A tile is placed beside
    /// another and moves by slides, so after `n` plies no tile stands
    /// further than `n - 1` from the origin. A player who has not had a turn
    /// yet has a full bag.
    pub open spec fn wf(self) -> bool {
        &&& self.tiles.dom().finite()
        &&& forall|h: Hex| self.tiles.contains_key(h) ==> h.within(self.plies - 1)
        &&& self.bags.0.wf()
        &&& self.bags.1.wf()
        &&& self.plies == 0 ==> self.bags.0 == Board::full_bag()
        &&& self.plies <= 1 ==> self.bags.1 == Board::full_bag()
        &&& self.queen_wf(true)
        &&& self.queen_wf(false)
    }

    /// The move can be made: the piece is in the bag of the player to move,
    /// or the tile is that player's; the cell it goes to is empty and near.
    pub open spec fn admits(self, m: Action) -> bool {
        match m {
            Action::Place(kind, at) => {
                &&& self.bag_of(self.turn()).has(kind)
                &&& !self.tiles.contains_key(at)
                &&& at.within(self.plies as int)
            },
            Action::Move(from, to) => {
                &&& self.tiles.contains_key(from)
                &&& self.tiles[from].team == self.turn()
                &&& !self.tiles.contains_key(to)
                &&& to.within(self.plies as int)
            },
        }
    }

    /// The position once the move is made.
    pub open spec fn after(self, m: Action) -> Board {
        let team = self.turn();
        match m {
            Action::Place(kind, at) => Board {
                plies: self.plies + 1,
                tiles: self.tiles.insert(at, Piece { team, kind }),
                bags: self.with_bag(team, self.bag_of(team).without(kind)),
                queens: if kind == TileType::Queen {
                    self.with_queen(team, Some(at))
                } else {
                    self.queens
                },
            },
            Action::Move(from, to) => Board {
                plies: self.plies + 1,
                tiles: self.tiles.remove(from).insert(to, self.tiles[from]),
                bags: self.bags,
                queens: if self.tiles[from].kind == TileType::Queen {
                    self.with_queen(team, Some(to))
                } else {
                    self.queens
                },
            },
        }
    }

    /// The position from which the move led here, if it was the last ply.
    pub open spec fn before(self, m: Action) -> Board {
        let team = !self.turn();
        match m {
            Action::Place(kind, at) => Board {
                plies: (self.plies - 1) as nat,
                tiles: self.tiles.remove(at),
                bags: self.with_bag(team, self.bag_of(team).with(kind)),
                queens: if kind == TileType::Queen {
                    self.with_queen(team, None)
                } else {
                    self.queens
                },
            },
            Action::Move(from, to) => Board {
                plies: (self.plies - 1) as nat,
                tiles: self.tiles.remove(to).insert(from, self.tiles[to]),
                bags: self.bags,
                queens: if self.tiles[to].kind == TileType::Queen {
                    self.with_queen(team, Some(from))
                } else {
                    self.queens
                },
            },
        }
    }

    /// The move was the last ply: it led here from a position of a game that
    /// admitted it.
    pub open spec fn follows(self, m: Action) -> bool {
        &&& self.plies > 0
        &&& self.before(m).wf()
        &&& self.before(m).admits(m)
        &&& self.before(m).after(m) == self
    }

    /// The position once the player to move has passed.
    pub open spec fn passed(self) -> Board {
        Board { plies: self.plies + 1, ..self }
    }

    /// The position before the last ply, where that was a pass.
    pub open spec fn unpassed(self) -> Board {
        Board { plies: (self.plies - 1) as nat, ..self }
    }

    /// A piece of the player to move may be placed on `h`: the cell is empty,
    /// touches a tile of that player and none of the other.
    pub open spec fn placeable(self, h: Hex) -> bool {
        &&& !self.tiles.contains_key(h)
        &&& exists|i: int|
            0 <= i < 6 && self.tiles.contains_key(#[trigger] h.neighbor(i)) && self.tiles[h.neighbor(
                i,
            )].team == self.turn()
        &&& forall|i: int|
            0 <= i < 6 && self.tiles.contains_key(#[trigger] h.neighbor(i)) ==> self.tiles[h.neighbor(
                i,
            )].team == self.turn()
    }

    /// The move is one that the rules allow in this position.
    ///
    /// The first piece goes to the origin and the second beside it. After
    /// that a piece is placed where it touches only its own side; and once
    /// the queen of the player to move is on the board, a tile of that player
    /// may go where its kind reaches, if the hive is whole afterwards.
    pub open spec fn legal(self, m: Action) -> bool {
        match m {
            Action::Place(kind, at) => {
                &&& self.options().contains(kind)
                &&& if self.plies == 0 {
                    at == origin()
                } else if self.plies == 1 {
                    at == beside_origin()
                } else {
                    self.placeable(at)
                }
            },
            Action::Move(from, to) => {
                &&& self.plies >= 2
                &&& self.queen_of(self.turn()) is Some
                &&& self.tiles.contains_key(from)
                &&& self.tiles[from].team == self.turn()
                &&& self.tiles[from].kind.reach(self.cells(), from, to)
                &&& one_hive(self.cells().remove(from).insert(to))
            },
        }
    }

    /// The list holds the legal moves, each once and in order.
    pub open spec fn lists(self, list: Seq<Action>) -> bool {
        &&& ascending(list)
        &&& forall|m: Action| list.contains(m) <==> self.legal(m)
    }

    /// The legal moves, in order.
    pub open spec fn moves(self) -> Seq<Action> {
        choose|list: Seq<Action>| self.lists(list)
    }

    /// A list that holds the legal moves in order is the list of them, and
    /// in a game each of its moves can be made.
    pub proof fn lemma_moves(self, list: Seq<Action>)
        requires
            self.lists(list),
        ensures
            list == self.moves(),
            self.wf() ==> forall|m: Action| #[trigger] list.contains(m) ==> self.admits(m),
    {
        lemma_ascending_unique(list, self.moves());
        if self.wf() {
            assert forall|m: Action| #[trigger] list.contains(m) implies self.admits(m) by {
                self.lemma_legal_admits(m);
            }
        }
    }

    /// The fingerprint of the position: the sum of the fingerprints of its
    /// tiles, and one more where the first player is to move, cut to 64 bits.
    pub open spec fn hash(self) -> u64 {
        ((digest_sum(self.tiles) + if self.turn() {
            1int
        } else {
            0int
        }) % 0x1_0000_0000_0000_0000) as u64
    }

    /// The rectangle of the display grid that frames the tiles, with a margin
    /// of two columns and one row; around the origin where there is no tile.
    pub open spec fn framed(self, x_min: int, y_min: int, x_max: int, y_max: int) -> bool {
        if self.cells() =~= Set::empty() {
            x_min == -2 && y_min == -1 && x_max == 2 && y_max == 1
        } else {
            &&& forall|h: Hex|
                self.tiles.contains_key(h) ==> x_min + 2 <= h.square().0 <= x_max - 2 && y_min + 1
                    <= h.square().1 <= y_max - 1
            &&& exists|h: Hex| self.tiles.contains_key(h) && h.square().0 == x_min + 2
            &&& exists|h: Hex| self.tiles.contains_key(h) && h.square().0 == x_max - 2
            &&& exists|h: Hex| self.tiles.contains_key(h) && h.square().1 == y_min + 1
            &&& exists|h: Hex| self.tiles.contains_key(h) && h.square().1 == y_max - 1
        }
    }

    /// Only one rectangle frames the tiles.
    pub proof fn lemma_framed_once(self, x_min: int, y_min: int, x_max: int, y_max: int)
        requires
            self.framed(x_min, y_min, x_max, y_max),
        ensures
            forall|a: int, b: int, c: int, d: int|
                #![trigger self.framed(a, b, c, d)]
                self.framed(a, b, c, d) ==> a == x_min && b == y_min && c == x_max && d == y_max,
    {
        assert forall|a: int, b: int, c: int, d: int| #![trigger self.framed(a, b, c, d)]
            self.framed(a, b, c, d) implies a == x_min && b == y_min && c == x_max && d
            == y_max by {
            if !(self.cells() =~= Set::empty()) {
                let h1 = choose|h: Hex| self.tiles.contains_key(h) && h.square().0 == x_min + 2;
                let h2 = choose|h: Hex| self.tiles.contains_key(h) && h.square().0 == a + 2;
                let h3 = choose|h: Hex| self.tiles.contains_key(h) && h.square().0 == x_max - 2;
                let h4 = choose|h: Hex| self.tiles.contains_key(h) && h.square().0 == c - 2;
                let h5 = choose|h: Hex| self.tiles.contains_key(h) && h.square().1 == y_min + 1;
                let h6 = choose|h: Hex| self.tiles.contains_key(h) && h.square().1 == b + 1;
                let h7 = choose|h: Hex| self.tiles.contains_key(h) && h.square().1 == y_max - 1;
                let h8 = choose|h: Hex| self.tiles.contains_key(h) && h.square().1 == d - 1;
            }
        }
    }

    /// How the tile on `h` is shown on a display grid whose least column and
    /// row are `x_min` and `y_min`: its column and row on the grid, its owner
    /// and the letter of its kind.
    pub open spec fn shown(self, x_min: int, y_min: int, h: Hex) -> (int, int, bool, char) {
        (
            h.square().0 - x_min,
            h.square().1 - y_min,
            self.tiles[h].team,
            self.tiles[h].kind.letter(),
        )
    }

    /// How many cells around the queen of `team` are occupied, and 1 while
    /// she is not on the board.
    pub open spec fn pressure(self, team: bool) -> int {
        match self.queen_of(team) {
            Some(q) => crowd(self.cells(), q, 6),
            None => 1,
        }
    }

    /// The score: by how much the second player's queen is more surrounded
    /// than the first's, whether the first player has won, and whether the
    /// second has.
    pub open spec fn score(self) -> (int, bool, bool) {
        (
            self.pressure(false) - self.pressure(true),
            self.pressure(false) == 6,
            self.pressure(true) == 6,
        )
    }

    /// A move that is made leads to a position of a game.
    pub proof fn lemma_after_wf(self, m: Action)
        requires
            self.wf(),
            self.admits(m),
        ensures
            self.after(m).wf(),
    {
        let next = self.after(m);
        let team = self.turn();
        match m {
            Action::Place(kind, at) => {
                assert(next.queen_wf(true));
                assert(next.queen_wf(false));
            },
            Action::Move(from, to) => {
                assert(next.queen_wf(true));
                assert(next.queen_wf(false));
            },
        }
    }

    /// A legal move can be made.
    pub proof fn lemma_legal_admits(self, m: Action)
        requires
            self.wf(),
            self.legal(m),
        ensures
            self.admits(m),
    {
        match m {
            Action::Place(kind, at) => {
                lemma_options(self.bag_of(self.turn()), self.force_queen(), kind);
                if self.plies >= 2 {
                    let i = choose|i: int|
                        0 <= i < 6 && self.tiles.contains_key(#[trigger] at.neighbor(i))
                            && self.tiles[at.neighbor(i)].team == self.turn();
                    lemma_opposite(at, i);
                    lemma_neighbor_within(at.neighbor(i), opposite(i), self.plies - 1);
                } else if self.plies == 1 {
                    assert(self.tiles.contains_key(at) ==> at.within(0));
                }
            },
            Action::Move(from, to) => {
                self.lemma_reach_near(from, to);
            },
        }
    }

    /// Where a tile can go is an empty cell beside a tile.
    pub proof fn lemma_reach_near(self, from: Hex, to: Hex)
        requires
            self.wf(),
            self.tiles.contains_key(from),
            self.tiles[from].kind.reach(self.cells(), from, to),
        ensures
            !self.tiles.contains_key(to),
            to.within(self.plies as int),
            exists|i: int| 0 <= i < 6 && self.tiles.contains_key(#[trigger] to.neighbor(i)),
    {
        let cells = self.cells();
        match self.tiles[from].kind {
            TileType::Queen => {
                let i = choose|i: int|
                    0 <= i < 6 && crate::tile_types::can_slide(cells, from, i)
                        && #[trigger] from.neighbor(i) == to;
                lemma_neighbor_within(from, i, self.plies - 1);
                lemma_opposite(from, i);
                assert(self.tiles.contains_key(to.neighbor(opposite(i))));
            },
            TileType::Ant => {
                lemma_reached_node(rim(cells), Set::new(|s: Hex| slides(cells, from, s)), to);
                let i = choose|i: int| 0 <= i < 6 && cells.contains(#[trigger] to.neighbor(i));
                lemma_opposite(to, i);
                lemma_neighbor_within(to.neighbor(i), opposite(i), self.plies - 1);
            },
        }
    }
}

/// A move that is made and then taken back leaves the position as it was:
/// the tiles, both bags, both queens and the ply.
pub proof fn law_undo_restores(b: Board, m: Action)
    requires
        b.wf(),
        b.admits(m),
    ensures
        b.after(m).follows(m),
        b.after(m).before(m) == b,
{
    let next = b.after(m);
    let back = next.before(m);
    assert(!next.turn() == b.turn());
    match m {
        Action::Place(kind, at) => {
            assert(back.tiles =~= b.tiles);
            assert(back.bags == b.bags);
            assert(back.queens == b.queens);
        },
        Action::Move(from, to) => {
            assert(back.tiles =~= b.tiles);
            assert(back.queens == b.queens);
        },
    }
    assert(back == b);
}

/// A pass that is taken back leaves the position as it was.
pub proof fn law_unpass_restores(b: Board)
    ensures
        b.passed().unpassed() == b,
        b.wf() ==> b.passed().wf(),
{
}

/// The hive stays whole: where the occupied cells hang together, they still
/// do after any legal move.
pub proof fn law_hive_stays_whole(b: Board, m: Action)
    requires
        b.wf(),
        one_hive(b.cells()),
        b.legal(m),
    ensures
        one_hive(b.after(m).cells()),
{
    match m {
        Action::Place(kind, at) => {
            assert(b.after(m).cells() =~= b.cells().insert(at));
            if b.plies == 0 {
                assert(b.cells() =~= Set::empty()) by {
                    assert forall|h: Hex| !b.cells().contains(h) by {
                        if b.tiles.contains_key(h) {
                            assert(h.within(-1));
                        }
                    }
                }
                lemma_hive_small(b.cells().insert(at), at);
            } else if b.plies == 1 {
                assert forall|h: Hex| b.cells().contains(h) implies h == origin() by {
                    assert(h.within(0));
                }
                if b.cells().contains(origin()) {
                    assert(origin().neighbor(2) == beside_origin());
                    lemma_hive_attach(b.cells(), at, origin());
                } else {
                    lemma_hive_small(b.cells().insert(at), at);
                }
            } else {
                let i = choose|i: int|
                    0 <= i < 6 && b.tiles.contains_key(#[trigger] at.neighbor(i))
                        && b.tiles[at.neighbor(i)].team == b.turn();
                lemma_opposite(at, i);
                assert(at.neighbor(i).neighbor(opposite(i)) == at);
                lemma_hive_attach(b.cells(), at, at.neighbor(i));
            }
        },
        Action::Move(from, to) => {
            assert(b.after(m).cells() =~= b.cells().remove(from).insert(to));
        },
    }
}

/// The position that a game has reached after the given plies, each a move
/// or, where it is `None`, a pass.
pub open spec fn position_after(plies: Seq<Option<Action>>) -> Board
    decreases plies.len(),
{
    if plies.len() == 0 {
        Board::empty()
    } else {
        let b = position_after(plies.drop_last());
        match plies.last() {
            Some(m) => b.after(m),
            None => b.passed(),
        }
    }
}

/// Each move of the game was legal where it was made.
pub open spec fn by_the_rules(plies: Seq<Option<Action>>) -> bool
    decreases plies.len(),
{
    plies.len() == 0 || (by_the_rules(plies.drop_last()) && match plies.last() {
        Some(m) => position_after(plies.drop_last()).legal(m),
        None => true,
    })
}

/// In every position that a game by the rules reaches, the occupied cells
/// form one hive, and all that holds of the position of a game holds of it.
pub proof fn law_every_position_is_one_hive(plies: Seq<Option<Action>>)
    requires
        by_the_rules(plies),
    ensures
        position_after(plies).wf(),
        one_hive(position_after(plies).cells()),
    decreases plies.len(),
{
    if plies.len() == 0 {
        lemma_hive_small(Board::empty().cells(), origin());
    } else {
        let b = position_after(plies.drop_last());
        law_every_position_is_one_hive(plies.drop_last());
        match plies.last() {
            Some(m) => {
                b.lemma_legal_admits(m);
                b.lemma_after_wf(m);
                law_hive_stays_whole(b, m);
            },
            None => {},
        }
    }
}

/// On the empty board the legal moves are the placements at the origin, one
/// for each kind of piece that may be placed; in a game these are both kinds,
/// the queen first, and the board is empty indeed.
pub proof fn law_first_ply(b: Board, m: Action)
    requires
        b.plies == 0,
    ensures
        b.legal(m) <==> (m matches Action::Place(kind, at) && at == origin()
            && b.options().contains(kind)),
        b.wf() ==> b.options() == seq![TileType::Queen, TileType::Ant],
        b.wf() ==> b.cells() == Set::<Hex>::empty(),
        b.wf() ==> b.lists(
            seq![
                Action::Place(TileType::Queen, origin()),
                Action::Place(TileType::Ant, origin()),
            ],
        ),
{
    if b.wf() {
        assert(b.options() =~= seq![TileType::Queen, TileType::Ant]);
        assert(b.cells() =~= Set::<Hex>::empty()) by {
            assert forall|h: Hex| !b.cells().contains(h) by {
                if b.tiles.contains_key(h) {
                    assert(h.within(-1));
                }
            }
        }
        lemma_opening_list(b, origin());
    }
}

/// On the second ply the legal moves are the placements on the cell beside
/// the origin, one for each kind of piece that may be placed; in a game these
/// are both kinds, the queen first, and no tile stands but on the origin.
pub proof fn law_second_ply(b: Board, m: Action)
    requires
        b.plies == 1,
    ensures
        b.legal(m) <==> (m matches Action::Place(kind, at) && at == beside_origin()
            && b.options().contains(kind)),
        b.wf() ==> b.options() == seq![TileType::Queen, TileType::Ant],
        b.wf() ==> b.cells().subset_of(set![origin()]),
        b.wf() ==> b.lists(
            seq![
                Action::Place(TileType::Queen, beside_origin()),
                Action::Place(TileType::Ant, beside_origin()),
            ],
        ),
{
    if b.wf() {
        assert(b.options() =~= seq![TileType::Queen, TileType::Ant]);
        assert forall|h: Hex| b.cells().contains(h) implies h == origin() by {
            assert(h.within(0));
        }
        lemma_opening_list(b, beside_origin());
    }
}

/// Where both kinds may be placed, and only on `at`, the legal moves are the
/// two placements there.
proof fn lemma_opening_list(b: Board, at: Hex)
    requires
        b.options() == seq![TileType::Queen, TileType::Ant],
        b.plies == 0 && at == origin() || b.plies == 1 && at == beside_origin(),
    ensures
        b.lists(seq![Action::Place(TileType::Queen, at), Action::Place(TileType::Ant, at)]),
{
    let list = seq![Action::Place(TileType::Queen, at), Action::Place(TileType::Ant, at)];
    assert(b.options()[0] == TileType::Queen);
    assert(b.options()[1] == TileType::Ant);
    assert forall|m: Action| list.contains(m) <==> b.legal(m) by {
        if b.legal(m) {
            if m == list[0] {
            } else {
                assert(m == list[1]);
            }
        }
        if list.contains(m) {
            let i = choose|i: int| 0 <= i < list.len() && list[i] == m;
            if i == 0 {
                assert(b.options().contains(TileType::Queen));
            } else {
                assert(b.options().contains(TileType::Ant));
            }
        }
    }
}

/// A queen whose six neighbours are all occupied makes the other player the
/// winner, and no one else; where both queens are so surrounded, both flags
/// are set.
pub proof fn law_surrounded_queen(b: Board, team: bool)
    ensures
        (if team {
            b.score().2
        } else {
            b.score().1
        }) <==> (b.queen_of(team) matches Some(q) && forall|i: int|
            0 <= i < 6 ==> b.cells().contains(q.neighbor(i))),
{
    match b.queen_of(team) {
        Some(q) => {
            lemma_crowd(b.cells(), q, 6);
        },
        None => {},
    }
}

} // verus!
