//! Axial coordinates on the hexagonal grid.

use vstd::prelude::*;

verus! {

/// A cell of the unbounded grid, in axial form.
pub ghost struct Hex {
    pub x: int,
    pub y: int,
}

impl Hex {
    /// The `i`-th of the six neighbours, in the one order every consumer uses.
    pub open spec fn neighbor(self, i: int) -> Hex {
        if i == 0 {
            Hex { x: self.x, y: self.y + 1 }
        } else if i == 1 {
            Hex { x: self.x - 1, y: self.y + 1 }
        } else if i == 2 {
            Hex { x: self.x + 1, y: self.y }
        } else if i == 3 {
            Hex { x: self.x + 1, y: self.y - 1 }
        } else if i == 4 {
            Hex { x: self.x, y: self.y - 1 }
        } else {
            Hex { x: self.x - 1, y: self.y }
        }
    }

    /// Two cells share an edge.
    pub open spec fn adjacent(self, other: Hex) -> bool {
        exists|i: int| 0 <= i < 6 && #[trigger] self.neighbor(i) == other
    }

    /// Both axial components lie within `r` of zero.
    pub open spec fn within(self, r: int) -> bool {
        -r <= self.x <= r && -r <= self.y <= r
    }

    /// The cell on the doubled offset grid that displays this one.
    pub open spec fn square(self) -> (int, int) {
        (2 * self.x + self.y, self.y)
    }

    /// Strict lexicographic order, by `x` and then by `y`.
    pub open spec fn before(self, other: Hex) -> bool {
        self.x < other.x || (self.x == other.x && self.y < other.y)
    }
}

/// How far from the origin the library follows a hive. Up to here the
/// neighbours of a cell's neighbours, and the display projection of a cell,
/// fit the machine's integers, also where these have 32 bits.
pub const REACH: isize = 0x2000_0000;

/// The number of the neighbour that lies opposite the `i`-th.
pub open spec fn opposite(i: int) -> int {
    if i == 0 {
        4
    } else if i == 1 {
        3
    } else if i == 2 {
        5
    } else if i == 3 {
        1
    } else if i == 4 {
        0
    } else {
        2
    }
}

/// Every cell lies within `REACH` of the origin.
pub open spec fn in_reach(cells: Set<Hex>) -> bool {
    forall|h: Hex| cells.contains(h) ==> h.within(REACH as int)
}

/// Half of `d`, rounded towards zero.
pub open spec fn half_towards_zero(d: int) -> int {
    if d >= 0 {
        d / 2
    } else {
        -((-d) / 2)
    }
}

/// Adjacency is symmetric.
pub proof fn lemma_adjacent_symmetric(a: Hex, b: Hex)
    requires
        a.adjacent(b),
    ensures
        b.adjacent(a),
{
    let i = choose|i: int| 0 <= i < 6 && #[trigger] a.neighbor(i) == b;
    lemma_opposite(a, i);
}

/// Stepping to a neighbour and then to the opposite one leads back.
pub proof fn lemma_opposite(a: Hex, i: int)
    requires
        0 <= i < 6,
    ensures
        0 <= opposite(i) < 6,
        a.neighbor(i).neighbor(opposite(i)) == a,
        opposite(opposite(i)) == i,
{
}

/// A neighbour lies at most one further out.
pub proof fn lemma_neighbor_within(a: Hex, i: int, r: int)
    requires
        a.within(r),
    ensures
        a.neighbor(i).within(r + 1),
        a.neighbor(i) != a,
{
}

/// A cell of the grid whose components fit the machine.
#[derive(Clone, Copy, Debug, PartialEq, Eq, Hash, Structural)]
pub struct HexCoord {
    pub x: isize,
    pub y: isize,
}

impl View for HexCoord {
    type V = Hex;

    open spec fn view(&self) -> Hex {
        Hex { x: self.x as int, y: self.y as int }
    }
}

impl DeepView for HexCoord {
    type V = Hex;

    open spec fn deep_view(&self) -> Hex {
        self@
    }
}

impl HexCoord {
    pub fn new(x: isize, y: isize) -> (c: HexCoord)
        ensures
            c.x == x,
            c.y == y,
    {
        HexCoord { x, y }
    }

    /// Whether this cell comes before `other`, by `x` and then by `y`.
    pub fn precedes(&self, other: &HexCoord) -> (first: bool)
        ensures
            first == self@.before(other@),
    {
        self.x < other.x || (self.x == other.x && self.y < other.y)
    }

    /// All six neighbours fit the machine.
    pub open spec fn has_neighbors(self) -> bool {
        isize::MIN < self.x < isize::MAX && isize::MIN < self.y < isize::MAX
    }

    pub fn to_square(&self) -> (sq: (isize, isize))
        requires
            isize::MIN <= 2 * self.x <= isize::MAX,
            isize::MIN <= 2 * self.x + self.y <= isize::MAX,
        ensures
            (sq.0 as int, sq.1 as int) == self@.square(),
    {
        ((self.x * 2) + self.y, self.y)
    }

    pub fn from_square(x: isize, y: isize) -> (c: HexCoord)
        requires
            isize::MIN <= x - y <= isize::MAX,
        ensures
            c.x == half_towards_zero(x - y),
            c.y == y,
    {
        HexCoord { x: (x - y) / 2, y }
    }

    pub fn try_from_square(x: isize, y: isize) -> (c: Option<HexCoord>)
        requires
            isize::MIN <= x - y <= isize::MAX,
        ensures
            c is None <==> (x - y) % 2 != 0,
            c matches Some(h) ==> h.x == half_towards_zero(x - y) && h.y == y,
            c matches Some(h) ==> h@.square() == (x as int, y as int),
    {
        if (x - y) % 2 != 0 {
            return None;
        }
        Some(HexCoord { x: (x - y) / 2, y })
    }

    pub fn surrounding(&self) -> (around: [HexCoord; 6])
        requires
            self.has_neighbors(),
        ensures
            forall|i: int| 0 <= i < 6 ==> (#[trigger] around[i])@ == self@.neighbor(i),
    {
        let x = self.x;
        let y = self.y;
        [
            HexCoord::new(x, y + 1),
            HexCoord::new(x - 1, y + 1),
            HexCoord::new(x + 1, y),
            HexCoord::new(x + 1, y - 1),
            HexCoord::new(x, y - 1),
            HexCoord::new(x - 1, y),
        ]
    }
}

/// Projecting a cell onto the display grid and back gives the cell again.
pub proof fn law_square_round_trip(c: Hex)
    ensures
        (c.square().0 - c.square().1) % 2 == 0,
        half_towards_zero(c.square().0 - c.square().1) == c.x,
        c.square().1 == c.y,
{
}

} // verus!
