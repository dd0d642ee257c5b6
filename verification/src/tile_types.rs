//! The kinds of piece.

use vstd::prelude::*;
use itertools::Itertools;
use crate::board::{crowd, lemma_crowd};
use crate::hex_coord::{in_reach, Hex, HexCoord, REACH};
use crate::hive::{ascending_cells, explore, rim, touches, Walk};
use crate::tile_store::TileStore;

verus! {

/// The numbers of the two neighbours of a cell that flank the edge it shares
/// with its `i`-th neighbour: the two cells that touch both.
pub open spec fn flanks(i: int) -> (int, int) {
    if i == 0 {
        (1, 2)
    } else if i == 1 {
        (0, 5)
    } else if i == 2 {
        (0, 3)
    } else if i == 3 {
        (2, 4)
    } else if i == 4 {
        (3, 5)
    } else {
        (4, 1)
    }
}

/// The flanks of an edge are the cells that touch both cells of the edge,
/// and no others.
pub proof fn law_flanks(from: Hex, i: int, c: Hex)
    requires
        0 <= i < 6,
    ensures
        0 <= flanks(i).0 < 6,
        0 <= flanks(i).1 < 6,
        (from.adjacent(c) && from.neighbor(i).adjacent(c)) <==> (c == from.neighbor(flanks(i).0)
            || c == from.neighbor(flanks(i).1)),
{
    let to = from.neighbor(i);
    if from.adjacent(c) && to.adjacent(c) {
        let j = choose|j: int| 0 <= j < 6 && #[trigger] from.neighbor(j) == c;
        let k = choose|k: int| 0 <= k < 6 && #[trigger] to.neighbor(k) == c;
    }
    if c == from.neighbor(flanks(i).0) || c == from.neighbor(flanks(i).1) {
        let j = if c == from.neighbor(flanks(i).0) {
            flanks(i).0
        } else {
            flanks(i).1
        };
        assert(from.neighbor(j) == c);
        let k = if i == 0 {
            if j == 1 { 5int } else { 3int }
        } else if i == 1 {
            if j == 0 { 2int } else { 4int }
        } else if i == 2 {
            if j == 0 { 1int } else { 4int }
        } else if i == 3 {
            if j == 2 { 0int } else { 5int }
        } else if i == 4 {
            if j == 3 { 2int } else { 1int }
        } else {
            if j == 4 { 3int } else { 0int }
        };
        assert(to.neighbor(k) == c);
    }
}

/// A piece on `from` can slide to its `i`-th neighbour: the cell is empty, and
/// the two cells that flank the edge between them are not both occupied, so
/// that the gap is wide enough for the piece.
pub open spec fn can_slide(cells: Set<Hex>, from: Hex, i: int) -> bool {
    &&& !cells.contains(from.neighbor(i))
    &&& !(cells.contains(from.neighbor(flanks(i).0)) && cells.contains(
        from.neighbor(flanks(i).1),
    ))
}

/// One slide leads from `from` to `to`.
pub open spec fn slides(cells: Set<Hex>, from: Hex, to: Hex) -> bool {
    exists|i: int| 0 <= i < 6 && can_slide(cells, from, i) && #[trigger] from.neighbor(i) == to
}

/// The cells that one slide leads to, among the first `n` neighbours and in
/// their order.
pub open spec fn slides_upto(cells: Set<Hex>, from: Hex, n: int) -> Seq<Hex>
    decreases n,
{
    if n <= 0 {
        seq![]
    } else if can_slide(cells, from, n - 1) {
        slides_upto(cells, from, n - 1).push(from.neighbor(n - 1))
    } else {
        slides_upto(cells, from, n - 1)
    }
}

/// `slides_upto` lists each cell that a slide over one of the first `n`
/// neighbours leads to, once.
pub proof fn lemma_slides_upto(cells: Set<Hex>, from: Hex, n: int)
    requires
        0 <= n <= 6,
    ensures
        forall|h: Hex|
            slides_upto(cells, from, n).contains(h) <==> exists|i: int|
                0 <= i < n && can_slide(cells, from, i) && #[trigger] from.neighbor(i) == h,
        slides_upto(cells, from, n).no_duplicates(),
        slides_upto(cells, from, n).len() <= n,
    decreases n,
{
    if n > 0 {
        lemma_slides_upto(cells, from, n - 1);
        let rest = slides_upto(cells, from, n - 1);
        let all = slides_upto(cells, from, n);
        let last = from.neighbor(n - 1);
        assert forall|h: Hex| all.contains(h) <==> exists|i: int|
            0 <= i < n && can_slide(cells, from, i) && #[trigger] from.neighbor(i) == h by {
            if all.contains(h) {
                let j = choose|j: int| 0 <= j < all.len() && all[j] == h;
                if j < rest.len() {
                    assert(rest.contains(h));
                } else {
                    assert(from.neighbor(n - 1) == h);
                }
            }
            if exists|i: int|
                0 <= i < n && can_slide(cells, from, i) && #[trigger] from.neighbor(i) == h {
                let i = choose|i: int|
                    0 <= i < n && can_slide(cells, from, i) && #[trigger] from.neighbor(i) == h;
                if i < n - 1 {
                    assert(rest.contains(h));
                    let j = choose|j: int| 0 <= j < rest.len() && rest[j] == h;
                    assert(all[j] == h);
                } else {
                    assert(all[all.len() - 1] == h);
                }
            }
        }
        if can_slide(cells, from, n - 1) {
            assert forall|a: int, b: int|
                0 <= a < all.len() && 0 <= b < all.len() && a != b implies all[a] != all[b] by {
                if a == rest.len() || b == rest.len() {
                    let other = if a == rest.len() { b } else { a };
                    assert(rest.contains(rest[other]));
                    let i = choose|i: int|
                        0 <= i < n - 1 && can_slide(cells, from, i) && #[trigger] from.neighbor(i)
                            == rest[other];
                    assert(from.neighbor(i) != last);
                }
            }
        }
    }
}

/// A slide leads to empty neighbours only, so there are no more slides than
/// empty neighbours.
pub proof fn lemma_slides_few(cells: Set<Hex>, from: Hex, n: int)
    requires
        0 <= n,
    ensures
        slides_upto(cells, from, n).len() + crowd(cells, from, n) <= n,
    decreases n,
{
    if n > 0 {
        lemma_slides_few(cells, from, n - 1);
    }
}

/// The cells that one slide leads to are those that `slides` names.
pub proof fn lemma_slides(cells: Set<Hex>, from: Hex)
    ensures
        forall|h: Hex| slides_upto(cells, from, 6).contains(h) <==> slides(cells, from, h),
        slides_upto(cells, from, 6).no_duplicates(),
{
    lemma_slides_upto(cells, from, 6);
}

/// One slide leads to a neighbour exactly when the neighbour is empty and
/// one of the cells that touch both it and the cell left is empty too.
pub proof fn law_step_rule(cells: Set<Hex>, from: Hex, to: Hex)
    ensures
        slides(cells, from, to) <==> (from.adjacent(to) && !cells.contains(to) && exists|c: Hex|
            #![trigger from.adjacent(c)]
            from.adjacent(c) && to.adjacent(c) && !cells.contains(c)),
{
    if slides(cells, from, to) {
        let i = choose|i: int|
            0 <= i < 6 && can_slide(cells, from, i) && #[trigger] from.neighbor(i) == to;
        let c = if !cells.contains(from.neighbor(flanks(i).0)) {
            from.neighbor(flanks(i).0)
        } else {
            from.neighbor(flanks(i).1)
        };
        law_flanks(from, i, c);
        assert(from.adjacent(c) && to.adjacent(c) && !cells.contains(c));
    }
    if from.adjacent(to) && !cells.contains(to) && exists|c: Hex|
        #![trigger from.adjacent(c)]
        from.adjacent(c) && to.adjacent(c) && !cells.contains(c) {
        let i = choose|i: int| 0 <= i < 6 && #[trigger] from.neighbor(i) == to;
        let c = choose|c: Hex|
            #![trigger from.adjacent(c)]
            from.adjacent(c) && to.adjacent(c) && !cells.contains(c);
        law_flanks(from, i, c);
        assert(can_slide(cells, from, i));
    }
}

/// The numbers of the two neighbours that flank the edge to the `i`-th.
fn flanking(i: usize) -> (sides: (usize, usize))
    requires
        i < 6,
    ensures
        sides.0 < 6,
        sides.1 < 6,
        (sides.0 as int, sides.1 as int) == flanks(i as int),
{
    if i == 0 {
        (1, 2)
    } else if i == 1 {
        (0, 5)
    } else if i == 2 {
        (0, 3)
    } else if i == 3 {
        (2, 4)
    } else if i == 4 {
        (3, 5)
    } else {
        (4, 1)
    }
}

/// `Itertools::collect_vec`, on the six cells of `around`, each mapped to
/// whether a tile stands on it: the answers come back in the order of the
/// cells.
#[verifier::external_body]
fn occupancy(tiles: &TileStore, around: &[HexCoord; 6]) -> (occupied: Vec<bool>)
    requires
        tiles.wf(),
    ensures
        occupied@.len() == 6,
        forall|i: int| 0 <= i < 6 ==> occupied@[i] == tiles@.contains_key(#[trigger] around@[i]@),
{
    around.iter().map(|l| tiles.contains_key(l)).collect_vec()
}

/// Where a piece on `location` can slide in one step: each empty neighbour
/// that it is not barred from by tiles on both flanks, once and in the order
/// of the neighbours.
pub fn possible_steps(location: &HexCoord, tiles: &TileStore) -> (steps: Vec<HexCoord>)
    requires
        tiles.wf(),
        location.has_neighbors(),
    ensures
        steps.deep_view() == slides_upto(tiles@.dom(), location@, 6),
        steps.deep_view().no_duplicates(),
        forall|h: Hex| steps.deep_view().contains(h) <==> slides(tiles@.dom(), location@, h),
        forall|h: Hex|
            steps.deep_view().contains(h) ==> location@.adjacent(h) && !tiles@.contains_key(h),
        steps.len() + crowd(tiles@.dom(), location@, 6) <= 6,
        touches(tiles@.dom(), location@) ==> steps.len() <= 5,
{
    proof {
        lemma_slides(tiles@.dom(), location@);
        lemma_slides_few(tiles@.dom(), location@, 6);
        lemma_crowd(tiles@.dom(), location@, 6);
    }
    let mut steps: Vec<HexCoord> = Vec::with_capacity(5);

    let surrounding = location.surrounding();
    let occupied = occupancy(tiles, &surrounding);

    let mut i: usize = 0;
    while i < 6
        invariant
            i <= 6,
            occupied@.len() == 6,
            forall|j: int| 0 <= j < 6 ==> (#[trigger] surrounding[j])@ == location@.neighbor(j),
            forall|j: int|
                0 <= j < 6 ==> occupied@[j] == tiles@.contains_key(#[trigger] surrounding@[j]@),
            steps.deep_view() == slides_upto(tiles@.dom(), location@, i as int),
        decreases 6 - i,
    {
        let (before, after) = flanking(i);
        assert(surrounding@[i as int]@ == location@.neighbor(i as int));
        assert(surrounding@[before as int]@ == location@.neighbor(before as int));
        assert(surrounding@[after as int]@ == location@.neighbor(after as int));
        if !occupied[i] && !(occupied[before] && occupied[after]) {
            let ghost old_steps = steps.deep_view();
            steps.push(surrounding[i]);
            assert(steps.deep_view() =~= old_steps.push(surrounding@[i as int]@));
        }
        i += 1;
    }
    proof {
        assert forall|h: Hex| steps.deep_view().contains(h) implies location@.adjacent(h)
            && !tiles@.contains_key(h) by {
            assert(slides(tiles@.dom(), location@, h));
            let k = choose|k: int|
                0 <= k < 6 && can_slide(tiles@.dom(), location@, k) && #[trigger] location@.neighbor(
                    k,
                ) == h;
        }
    }
    steps
}

/// A kind of piece. The set of kinds is closed.
#[derive(Clone, Copy, Debug, PartialEq, Eq, Hash, Structural)]
pub enum TileType {
    Queen,
    Ant,
}

impl TileType {
    /// How many kinds there are.
    pub const VARIANT_COUNT: usize = 2;

    /// The letter that stands for a kind.
    pub open spec fn letter(self) -> char {
        match self {
            TileType::Queen => 'Q',
            TileType::Ant => 'A',
        }
    }

    pub fn character(&self) -> (c: char)
        ensures
            c == self.letter(),
    {
        match self {
            TileType::Queen => 'Q',
            TileType::Ant => 'A',
        }
    }

    /// A piece of this kind on `from` may go to `to`, as far as its own way
    /// of moving is concerned: the queen by one slide, the ant by any number
    /// of slides along the rim of the hive. The tile on `from` stays where it
    /// is while the way is sought, so no way leads back to it.
    pub open spec fn reach(self, cells: Set<Hex>, from: Hex, to: Hex) -> bool {
        match self {
            TileType::Queen => slides(cells, from, to),
            TileType::Ant => rim(cells).reached(Set::new(|s: Hex| slides(cells, from, s)), to),
        }
    }

    /// Where a piece of this kind on `location` may go, each cell once: for
    /// the queen in the order of the neighbours, for the ant in ascending
    /// order.
    pub fn get_moves(&self, location: &HexCoord, tiles: &TileStore) -> (moves: Vec<HexCoord>)
        requires
            tiles.wf(),
            in_reach(tiles@.dom()),
            location@.within(REACH as int),
        ensures
            moves.deep_view().no_duplicates(),
            forall|h: Hex|
                moves.deep_view().contains(h) <==> self.reach(tiles@.dom(), location@, h),
            *self == TileType::Queen ==> moves.deep_view() == slides_upto(
                tiles@.dom(),
                location@,
                6,
            ),
            *self == TileType::Ant ==> ascending_cells(moves.deep_view()),
    {
        match self {
            TileType::Queen => queen_moves(location, tiles),
            TileType::Ant => ant_moves(location, tiles),
        }
    }

    pub fn from_character(c: char) -> (kind: Option<TileType>)
        ensures
            kind matches Some(k) ==> k.letter() == c,
            kind is None ==> forall|k: TileType| k.letter() != c,
    {
        Some(
            match c {
                'Q' => TileType::Queen,
                'A' => TileType::Ant,
                _ => return None,
            },
        )
    }
}

/// Each kind has a letter of its own.
pub proof fn law_letters_differ(a: TileType, b: TileType)
    requires
        a.letter() == b.letter(),
    ensures
        a == b,
{
}


fn queen_moves(location: &HexCoord, tiles: &TileStore) -> (moves: Vec<HexCoord>)
    requires
        tiles.wf(),
        location.has_neighbors(),
    ensures
        moves.deep_view() == slides_upto(tiles@.dom(), location@, 6),
        moves.deep_view().no_duplicates(),
        forall|h: Hex| moves.deep_view().contains(h) <==> slides(tiles@.dom(), location@, h),
{
    proof {
        lemma_slides(tiles@.dom(), location@);
    }
    possible_steps(location, tiles)
}

fn ant_moves(location: &HexCoord, tiles: &TileStore) -> (moves: Vec<HexCoord>)
    requires
        tiles.wf(),
        in_reach(tiles@.dom()),
        location@.within(REACH as int),
    ensures
        ascending_cells(moves.deep_view()),
        moves.deep_view().no_duplicates(),
        forall|h: Hex|
            moves.deep_view().contains(h) <==> TileType::Ant.reach(tiles@.dom(), location@, h),
{
    let first = possible_steps(location, tiles);
    proof {
        lemma_slides(tiles@.dom(), location@);
        assert forall|i: int| 0 <= i < first.len() implies (#[trigger] first[i]).has_neighbors() by {
            let h = first.deep_view()[i];
            assert(h == first[i]@);
            assert(first.deep_view().contains(h));
            assert(slides(tiles@.dom(), location@, h));
            let k = choose|k: int|
                0 <= k < 6 && can_slide(tiles@.dom(), location@, k) && #[trigger] location@.neighbor(
                    k,
                ) == h;
            crate::hex_coord::lemma_neighbor_within(location@, k, REACH as int);
        }
        assert(first.deep_view().to_set() =~= Set::new(
            |s: Hex| slides(tiles@.dom(), location@, s),
        ));
    }
    explore(tiles, &Walk::Rim, &first)
}

} // verus!
