//! Reachability on the grid: what it means for cells to hang together.

use vstd::prelude::*;
use crate::hex_coord::{
    in_reach, lemma_adjacent_symmetric, lemma_neighbor_within, lemma_opposite, opposite, Hex,
    HexCoord, REACH,
};
use crate::tile_store::TileStore;
use crate::tile_types::{lemma_slides, possible_steps, slides};

verus! {

/// Some cells of the grid, and which of them lead to which.
pub ghost struct Graph {
    pub nodes: Set<Hex>,
    pub edge: spec_fn(Hex, Hex) -> bool,
}

impl Graph {
    /// `n` edges lead from `a` to `b`, over nodes alone.
    pub open spec fn reaches_in(self, a: Hex, b: Hex, n: nat) -> bool
        decreases n,
    {
        if n == 0 {
            a == b && self.nodes.contains(a)
        } else {
            self.nodes.contains(b) && exists|c: Hex|
                self.reaches_in(a, c, (n - 1) as nat) && #[trigger] (self.edge)(c, b)
        }
    }

    /// Some number of edges lead from `a` to `b`.
    pub open spec fn reaches(self, a: Hex, b: Hex) -> bool {
        exists|n: nat| self.reaches_in(a, b, n)
    }

    /// Some seed reaches `b`.
    pub open spec fn reached(self, seeds: Set<Hex>, b: Hex) -> bool {
        exists|a: Hex| seeds.contains(a) && #[trigger] self.reaches(a, b)
    }

    /// Every node reaches every other: one component, or no node at all.
    pub open spec fn connected(self) -> bool {
        forall|a: Hex, b: Hex|
            self.nodes.contains(a) && self.nodes.contains(b) ==> #[trigger] self.reaches(a, b)
    }

    /// Every edge can be walked both ways.
    pub open spec fn symmetric(self) -> bool {
        forall|a: Hex, b: Hex| #[trigger] (self.edge)(a, b) ==> (self.edge)(b, a)
    }

    /// No edge leads from `v` to a node outside it.
    pub open spec fn closed(self, v: Set<Hex>) -> bool {
        forall|c: Hex, d: Hex|
            v.contains(c) && self.nodes.contains(d) && #[trigger] (self.edge)(c, d) ==> v.contains(
                d,
            )
    }

    /// A walk starts and ends on nodes.
    pub proof fn lemma_ends(self, a: Hex, b: Hex, n: nat)
        requires
            self.reaches_in(a, b, n),
        ensures
            self.nodes.contains(a),
            self.nodes.contains(b),
        decreases n,
    {
        if n > 0 {
            let c = choose|c: Hex|
                self.reaches_in(a, c, (n - 1) as nat) && #[trigger] (self.edge)(c, b);
            self.lemma_ends(a, c, (n - 1) as nat);
        }
    }

    /// A walk can be continued by one edge.
    pub proof fn lemma_extend(self, a: Hex, c: Hex, b: Hex, n: nat)
        requires
            self.reaches_in(a, c, n),
            (self.edge)(c, b),
            self.nodes.contains(b),
        ensures
            self.reaches_in(a, b, n + 1),
            self.reaches(a, b),
    {
        assert(self.reaches_in(a, c, ((n + 1) - 1) as nat));
    }

    /// A walk can be entered by one edge.
    pub proof fn lemma_prepend(self, a: Hex, c: Hex, b: Hex, n: nat)
        requires
            self.nodes.contains(a),
            (self.edge)(a, c),
            self.reaches_in(c, b, n),
        ensures
            self.reaches_in(a, b, n + 1),
        decreases n,
    {
        if n == 0 {
            assert(self.reaches_in(a, a, 0));
            self.lemma_extend(a, a, b, 0);
        } else {
            let d = choose|d: Hex|
                self.reaches_in(c, d, (n - 1) as nat) && #[trigger] (self.edge)(d, b);
            self.lemma_prepend(a, c, d, (n - 1) as nat);
            self.lemma_extend(a, d, b, n);
        }
    }

    /// Where edges go both ways, so do walks.
    pub proof fn lemma_reverse(self, a: Hex, b: Hex, n: nat)
        requires
            self.symmetric(),
            self.reaches_in(a, b, n),
        ensures
            self.reaches_in(b, a, n),
        decreases n,
    {
        if n > 0 {
            let c = choose|c: Hex|
                self.reaches_in(a, c, (n - 1) as nat) && #[trigger] (self.edge)(c, b);
            self.lemma_reverse(a, c, (n - 1) as nat);
            self.lemma_prepend(b, c, a, (n - 1) as nat);
        }
    }

    /// Two walks that meet make one.
    pub proof fn lemma_join(self, a: Hex, b: Hex, c: Hex, n: nat, m: nat)
        requires
            self.reaches_in(a, b, n),
            self.reaches_in(b, c, m),
        ensures
            self.reaches_in(a, c, n + m),
        decreases m,
    {
        if m > 0 {
            let d = choose|d: Hex|
                self.reaches_in(b, d, (m - 1) as nat) && #[trigger] (self.edge)(d, c);
            self.lemma_join(a, b, d, n, (m - 1) as nat);
            self.lemma_extend(a, d, c, (n + m - 1) as nat);
        }
    }

    /// No walk leaves a closed set.
    pub proof fn lemma_stays(self, v: Set<Hex>, a: Hex, b: Hex, n: nat)
        requires
            self.closed(v),
            v.contains(a),
            self.reaches_in(a, b, n),
        ensures
            v.contains(b),
        decreases n,
    {
        if n > 0 {
            let c = choose|c: Hex|
                self.reaches_in(a, c, (n - 1) as nat) && #[trigger] (self.edge)(c, b);
            self.lemma_stays(v, a, c, (n - 1) as nat);
        }
    }

    /// Where one node reaches all nodes and edges go both ways, all hang
    /// together.
    pub proof fn lemma_star(self, s: Hex)
        requires
            self.symmetric(),
            forall|b: Hex| self.nodes.contains(b) ==> #[trigger] self.reaches(s, b),
        ensures
            self.connected(),
    {
        assert forall|a: Hex, b: Hex|
            self.nodes.contains(a) && self.nodes.contains(b) implies #[trigger] self.reaches(
            a,
            b,
        ) by {
            assert(self.reaches(s, a));
            assert(self.reaches(s, b));
            let n = choose|n: nat| self.reaches_in(s, a, n);
            let m = choose|m: nat| self.reaches_in(s, b, m);
            self.lemma_reverse(s, a, n);
            self.lemma_join(a, s, b, n, m);
        }
    }

    /// A walk stays a walk when nodes are added.
    pub proof fn lemma_grow(self, more: Graph, a: Hex, b: Hex, n: nat)
        requires
            self.nodes.subset_of(more.nodes),
            self.edge == more.edge,
            self.reaches_in(a, b, n),
        ensures
            more.reaches_in(a, b, n),
        decreases n,
    {
        if n > 0 {
            let c = choose|c: Hex|
                self.reaches_in(a, c, (n - 1) as nat) && #[trigger] (self.edge)(c, b);
            self.lemma_grow(more, a, c, (n - 1) as nat);
            more.lemma_extend(a, c, b, (n - 1) as nat);
        }
    }
}

/// The occupied cells, each leading to the occupied cells it shares an edge
/// with.
pub open spec fn hive(cells: Set<Hex>) -> Graph {
    Graph { nodes: cells, edge: |a: Hex, b: Hex| a.adjacent(b) }
}

/// The cells form one hive: a single component under adjacency.
pub open spec fn one_hive(cells: Set<Hex>) -> bool {
    hive(cells).connected()
}

pub proof fn lemma_hive_symmetric(cells: Set<Hex>)
    ensures
        hive(cells).symmetric(),
{
    assert forall|a: Hex, b: Hex| #[trigger] (hive(cells).edge)(a, b) implies (hive(cells).edge)(
        b,
        a,
    ) by {
        lemma_adjacent_symmetric(a, b);
    }
}

/// A hive stays whole when a cell is added that touches it.
pub proof fn lemma_hive_attach(cells: Set<Hex>, h: Hex, at: Hex)
    requires
        one_hive(cells),
        cells.contains(at),
        at.adjacent(h),
    ensures
        one_hive(cells.insert(h)),
{
    let g = hive(cells);
    let more = hive(cells.insert(h));
    lemma_hive_symmetric(cells.insert(h));
    assert forall|b: Hex| more.nodes.contains(b) implies #[trigger] more.reaches(at, b) by {
        if b == h {
            assert(more.reaches_in(at, at, 0));
            more.lemma_extend(at, at, h, 0);
        } else {
            assert(g.reaches(at, b));
            let n = choose|n: nat| g.reaches_in(at, b, n);
            g.lemma_grow(more, at, b, n);
        }
    }
    more.lemma_star(at);
}

/// A single cell is a hive, and so is no cell at all.
pub proof fn lemma_hive_small(cells: Set<Hex>, h: Hex)
    requires
        cells.subset_of(set![h]),
    ensures
        one_hive(cells),
{
    let g = hive(cells);
    assert forall|a: Hex, b: Hex|
        g.nodes.contains(a) && g.nodes.contains(b) implies #[trigger] g.reaches(a, b) by {
        assert(a == h && b == h);
        assert(g.reaches_in(a, b, 0));
    }
}

/// An empty cell that touches an occupied one.
pub open spec fn on_rim(cells: Set<Hex>, h: Hex) -> bool {
    !cells.contains(h) && touches(cells, h)
}

/// One of the six neighbours of `h` is occupied.
pub open spec fn touches(cells: Set<Hex>, h: Hex) -> bool {
    exists|i: int| 0 <= i < 6 && cells.contains(#[trigger] h.neighbor(i))
}

/// The empty cells around the hive, each leading to those that one slide
/// reaches.
pub open spec fn rim(cells: Set<Hex>) -> Graph {
    Graph { nodes: Set::new(|h: Hex| on_rim(cells, h)), edge: |a: Hex, b: Hex| slides(cells, a, b) }
}

/// A way of walking the grid around the tiles of a board.
#[derive(Clone, Copy, Debug)]
pub enum Walk {
    /// From tile to touching tile, over the tiles as they stand once the one
    /// on `from` has gone to `to`.
    Hive { from: HexCoord, to: HexCoord },
    /// By slides, over the empty cells that touch a tile.
    Rim,
}

impl Walk {
    /// The graph that is walked, on a board with tiles on `cells`.
    pub open spec fn graph(self, cells: Set<Hex>) -> Graph {
        match self {
            Walk::Hive { from, to } => hive(cells.remove(from@).insert(to@)),
            Walk::Rim => rim(cells),
        }
    }

    /// The walk stays where coordinates fit the machine.
    pub open spec fn wf(self) -> bool {
        match self {
            Walk::Hive { from, to } => to@.within(REACH + 1),
            Walk::Rim => true,
        }
    }

    /// The nodes of a walk are few and near.
    pub proof fn lemma_nodes(self, cells: Set<Hex>)
        requires
            cells.finite(),
            in_reach(cells),
            self.wf(),
        ensures
            self.graph(cells).nodes.finite(),
            forall|h: Hex| self.graph(cells).nodes.contains(h) ==> h.within(REACH + 1),
    {
        match self {
            Walk::Hive { from, to } => {},
            Walk::Rim => {
                let nodes = rim(cells).nodes;
                let around = |j: int| cells.map(|o: Hex| o.neighbor(j));
                let all = around(0) + around(1) + around(2) + around(3) + around(4) + around(5);
                cells.lemma_map_finite(|o: Hex| o.neighbor(0));
                cells.lemma_map_finite(|o: Hex| o.neighbor(1));
                cells.lemma_map_finite(|o: Hex| o.neighbor(2));
                cells.lemma_map_finite(|o: Hex| o.neighbor(3));
                cells.lemma_map_finite(|o: Hex| o.neighbor(4));
                cells.lemma_map_finite(|o: Hex| o.neighbor(5));
                assert(all.finite());
                assert forall|h: Hex| nodes.contains(h) implies all.contains(h) && h.within(
                    REACH + 1,
                ) by {
                    let i = choose|i: int| 0 <= i < 6 && cells.contains(#[trigger] h.neighbor(i));
                    let o = h.neighbor(i);
                    lemma_opposite(h, i);
                    let j = opposite(i);
                    lemma_neighbor_within(o, j, REACH as int);
                    assert(around(j).contains(h));
                }
                assert(nodes.subset_of(all));
                vstd::set_lib::lemma_set_subset_finite(all, nodes);
            },
        }
    }

    /// Whether the walk passes over `c` at all.
    fn holds(&self, tiles: &TileStore, c: &HexCoord) -> (node: bool)
        requires
            tiles.wf(),
            c.has_neighbors(),
        ensures
            node == self.graph(tiles@.dom()).nodes.contains(c@),
    {
        match self {
            Walk::Hive { from, to } => *c == *to || (*c != *from && tiles.contains_key(c)),
            Walk::Rim => !tiles.contains_key(c) && any_around(tiles, c),
        }
    }

    /// Where the walk leads in one step from `c`.
    fn next(&self, tiles: &TileStore, c: &HexCoord) -> (out: Vec<HexCoord>)
        requires
            tiles.wf(),
            in_reach(tiles@.dom()),
            c@.within(REACH + 1),
        ensures
            forall|h: Hex|
                out.deep_view().contains(h) <==> self.graph(tiles@.dom()).nodes.contains(h) && (
                self.graph(tiles@.dom()).edge)(c@, h),
    {
        let ghost g = self.graph(tiles@.dom());
        let near = match self {
            Walk::Hive { from, to } => around(c),
            Walk::Rim => possible_steps(c, tiles),
        };
        let ghost cands = near.deep_view();
        proof {
            lemma_slides(tiles@.dom(), c@);
            assert forall|h: Hex| cands.contains(h) <==> (g.edge)(c@, h) by {
                if *self is Hive {
                    if c@.adjacent(h) {
                        let i = choose|i: int| 0 <= i < 6 && #[trigger] c@.neighbor(i) == h;
                        assert(cands[i] == h);
                    }
                }
            }
            assert forall|i: int| 0 <= i < near.len() implies (#[trigger] near[i]).has_neighbors() by {
                assert(cands[i] == near[i]@);
                assert(cands.contains(near[i]@));
                lemma_edge_near(*self, tiles@.dom(), c@, near[i]@);
            }
        }
        let mut out: Vec<HexCoord> = Vec::new();
        let mut i: usize = 0;
        while i < near.len()
            invariant
                i <= near.len(),
                tiles.wf(),
                g == self.graph(tiles@.dom()),
                cands == near.deep_view(),
                forall|k: int| 0 <= k < near.len() ==> (#[trigger] near[k]).has_neighbors(),
                forall|h: Hex|
                    #![trigger out.deep_view().contains(h)]
                    out.deep_view().contains(h) <==> g.nodes.contains(h) && listed_upto(
                        cands,
                        i as int,
                        h,
                    ),
            decreases near.len() - i,
        {
            let d = near[i];
            proof {
                assert(cands[i as int] == d@);
                lemma_listed_upto(cands, i as int);
            }
            if self.holds(tiles, &d) {
                let ghost before = out.deep_view();
                out.push(d);
                proof {
                    assert(out.deep_view() =~= before.push(d@));
                    lemma_pushed(before, d@);
                }
            }
            i += 1;
        }
        proof {
            lemma_listed_all(cands);
        }
        out
    }
}

/// A step of a walk from a cell near the tiles stays near them.
proof fn lemma_edge_near(walk: Walk, cells: Set<Hex>, c: Hex, d: Hex)
    requires
        c.within(REACH + 1),
        (walk.graph(cells).edge)(c, d),
    ensures
        d.within(REACH + 2),
{
    match walk {
        Walk::Hive { from, to } => {
            let i = choose|i: int| 0 <= i < 6 && #[trigger] c.neighbor(i) == d;
            lemma_neighbor_within(c, i, REACH + 1);
        },
        Walk::Rim => {
            let i = choose|i: int|
                0 <= i < 6 && crate::tile_types::can_slide(cells, c, i) && #[trigger] c.neighbor(i)
                    == d;
            lemma_neighbor_within(c, i, REACH + 1);
        },
    }
}

/// `h` is one of the first `n` cells of the list.
pub open spec fn listed_upto(list: Seq<Hex>, n: int, h: Hex) -> bool {
    exists|i: int| 0 <= i < n && #[trigger] list[i] == h
}

/// The first `n + 1` cells of a list are the first `n` and the one after.
pub proof fn lemma_listed_upto(list: Seq<Hex>, n: int)
    requires
        0 <= n < list.len(),
    ensures
        forall|h: Hex|
            #![trigger listed_upto(list, n, h)]
            listed_upto(list, n + 1, h) <==> listed_upto(list, n, h) || list[n] == h,
{
    assert forall|h: Hex| #![trigger listed_upto(list, n, h)]
        listed_upto(list, n + 1, h) <==> listed_upto(list, n, h) || list[n] == h by {
        if listed_upto(list, n, h) {
            let i = choose|i: int| 0 <= i < n && #[trigger] list[i] == h;
            assert(0 <= i < n + 1 && list[i] == h);
        }
        if list[n] == h {
            assert(0 <= n < n + 1 && list[n] == h);
        }
    }
}

/// All cells of a list are what the list holds.
pub proof fn lemma_listed_all(list: Seq<Hex>)
    ensures
        forall|h: Hex|
            #![trigger listed_upto(list, list.len() as int, h)]
            listed_upto(list, list.len() as int, h) <==> list.contains(h),
{
    assert forall|h: Hex| #![trigger listed_upto(list, list.len() as int, h)]
        listed_upto(list, list.len() as int, h) <==> list.contains(h) by {
        if list.contains(h) {
            let j = choose|j: int| 0 <= j < list.len() && list[j] == h;
            assert(0 <= j < list.len() && list[j] == h);
        }
        if listed_upto(list, list.len() as int, h) {
            let j = choose|j: int| 0 <= j < list.len() && #[trigger] list[j] == h;
            assert(list.contains(h));
        }
    }
}

/// The six cells around `c`, in their order.
pub fn around(c: &HexCoord) -> (cells: Vec<HexCoord>)
    requires
        c.has_neighbors(),
    ensures
        cells.deep_view() == Seq::new(6, |i: int| c@.neighbor(i)),
{
    let six = c.surrounding();
    let mut cells: Vec<HexCoord> = Vec::with_capacity(6);
    let mut i: usize = 0;
    while i < 6
        invariant
            i <= 6,
            forall|j: int| 0 <= j < 6 ==> (#[trigger] six[j])@ == c@.neighbor(j),
            cells.deep_view() == Seq::new(i as nat, |j: int| c@.neighbor(j)),
        decreases 6 - i,
    {
        let ghost before = cells.deep_view();
        cells.push(six[i]);
        assert(cells.deep_view() =~= before.push(six[i as int]@));
        assert(cells.deep_view() =~= Seq::new((i + 1) as nat, |j: int| c@.neighbor(j)));
        i += 1;
    }
    cells
}

/// Whether a tile stands on one of the six cells around `c`.
pub fn any_around(tiles: &TileStore, c: &HexCoord) -> (any: bool)
    requires
        tiles.wf(),
        c.has_neighbors(),
    ensures
        any == touches(tiles@.dom(), c@),
{
    let around = c.surrounding();
    let mut i: usize = 0;
    while i < 6
        invariant
            i <= 6,
            tiles.wf(),
            forall|j: int| 0 <= j < 6 ==> (#[trigger] around[j])@ == c@.neighbor(j),
            forall|j: int| 0 <= j < i ==> !tiles@.contains_key(#[trigger] c@.neighbor(j)),
        decreases 6 - i,
    {
        let d = around[i];
        assert(d@ == c@.neighbor(i as int));
        if tiles.contains_key(&d) {
            return true;
        }
        i += 1;
    }
    false
}

/// Whether `list` holds `c`.
pub fn lists(list: &Vec<HexCoord>, c: &HexCoord) -> (held: bool)
    ensures
        held == list.deep_view().contains(c@),
{
    let mut i: usize = 0;
    while i < list.len()
        invariant
            i <= list.len(),
            forall|j: int| 0 <= j < i ==> list.deep_view()[j] != c@,
        decreases list.len() - i,
    {
        if list[i] == *c {
            assert(list.deep_view()[i as int] == c@);
            return true;
        }
        i += 1;
    }
    false
}

/// Each cell of the list comes before all that follow it, by `x` and then by
/// `y`.
pub open spec fn ascending_cells(list: Seq<Hex>) -> bool {
    forall|i: int, j: int| 0 <= i < j < list.len() ==> (#[trigger] list[i]).before(#[trigger] list[j])
}

/// An ascending list holds no cell twice.
pub proof fn lemma_ascending_cells(list: Seq<Hex>)
    requires
        ascending_cells(list),
    ensures
        list.no_duplicates(),
{
    assert forall|i: int, j: int| 0 <= i < list.len() && 0 <= j < list.len() && i != j implies list[i]
        != list[j] by {
        if i < j {
            assert(list[i].before(list[j]));
        } else {
            assert(list[j].before(list[i]));
        }
    }
}

/// Puts `c` in its place in the list, unless the list holds it.
pub fn list_cell(list: &mut Vec<HexCoord>, c: HexCoord)
    requires
        ascending_cells(old(list).deep_view()),
    ensures
        ascending_cells(final(list).deep_view()),
        forall|h: Hex|
            #![trigger final(list).deep_view().contains(h)]
            final(list).deep_view().contains(h) <==> old(list).deep_view().contains(h) || h == c@,
{
    let ghost before = list.deep_view();
    let mut i: usize = 0;
    while i < list.len() && list[i].precedes(&c)
        invariant
            i <= list.len(),
            list.deep_view() == before,
            forall|j: int| 0 <= j < i ==> (#[trigger] before[j]).before(c@),
        decreases list.len() - i,
    {
        assert(list.deep_view()[i as int] == list[i as int]@);
        i += 1;
    }
    if i < list.len() && list[i] == c {
        assert(before[i as int] == list[i as int]@);
        assert(before.contains(c@));
        return ;
    }
    proof {
        if i < list.len() {
            assert(before[i as int] == list[i as int]@);
        }
    }
    list.insert(i, c);
    proof {
        let after = list.deep_view();
        assert(after =~= before.insert(i as int, c@));
        assert forall|a: int, b: int| 0 <= a < b < after.len() implies (#[trigger] after[a]).before(
            #[trigger] after[b],
        ) by {
            let a0 = if a < i { a } else { a - 1 };
            let b0 = if b < i { b } else { b - 1 };
            if a == i {
                assert(after[b] == before[b0]);
                assert(before[i as int].before(before[b0]) || b0 == i);
            } else if b == i {
                assert(after[a] == before[a0]);
            } else {
                assert(after[a] == before[a0] && after[b] == before[b0]);
                assert(before[a0].before(before[b0]));
            }
        }
        assert forall|h: Hex| #![trigger after.contains(h)]
            after.contains(h) <==> before.contains(h) || h == c@ by {
            if after.contains(h) {
                let a = choose|a: int| 0 <= a < after.len() && after[a] == h;
                if a != i {
                    let a0 = if a < i { a } else { a - 1 };
                    assert(before[a0] == h);
                }
            }
            if before.contains(h) {
                let a0 = choose|a0: int| 0 <= a0 < before.len() && before[a0] == h;
                let a = if a0 < i { a0 } else { a0 + 1 };
                assert(after[a] == h);
            }
            if h == c@ {
                assert(after[i as int] == h);
            }
        }
    }
}

/// The cells of the list, each once and in ascending order.
pub fn in_order(list: &Vec<HexCoord>) -> (sorted: Vec<HexCoord>)
    ensures
        ascending_cells(sorted.deep_view()),
        forall|h: Hex| sorted.deep_view().contains(h) <==> list.deep_view().contains(h),
{
    let mut sorted: Vec<HexCoord> = Vec::with_capacity(list.len());
    let mut i: usize = 0;
    while i < list.len()
        invariant
            i <= list.len(),
            ascending_cells(sorted.deep_view()),
            forall|h: Hex|
                #![trigger sorted.deep_view().contains(h)]
                sorted.deep_view().contains(h) <==> listed_upto(list.deep_view(), i as int, h),
        decreases list.len() - i,
    {
        proof {
            lemma_listed_upto(list.deep_view(), i as int);
            assert(list.deep_view()[i as int] == list[i as int]@);
        }
        list_cell(&mut sorted, list[i]);
        i += 1;
    }
    proof {
        lemma_listed_all(list.deep_view());
    }
    sorted
}

/// What a list holds once `x` is added at its end.
pub proof fn lemma_pushed(list: Seq<Hex>, x: Hex)
    ensures
        forall|h: Hex|
            #![trigger list.push(x).contains(h)]
            list.push(x).contains(h) <==> list.contains(h) || h == x,
        list.no_duplicates() && !list.contains(x) ==> list.push(x).no_duplicates(),
{
    let more = list.push(x);
    assert forall|h: Hex| #![trigger more.contains(h)]
        more.contains(h) <==> list.contains(h) || h == x by {
        if list.contains(h) {
            let i = choose|i: int| 0 <= i < list.len() && list[i] == h;
            assert(more[i] == h);
        }
        if h == x {
            assert(more[list.len() as int] == h);
        }
    }
}

/// A list without repeats, of cells of a finite set, is no longer than the
/// set is large.
pub proof fn lemma_listed_len(list: Seq<Hex>, all: Set<Hex>)
    requires
        list.no_duplicates(),
        all.finite(),
        forall|i: int| 0 <= i < list.len() ==> all.contains(#[trigger] list[i]),
    ensures
        list.len() <= all.len(),
        list.len() == all.len() ==> list.to_set() == all,
{
    list.unique_seq_to_set();
    assert(list.to_set().subset_of(all));
    vstd::set_lib::lemma_len_subset(list.to_set(), all);
    if list.len() == all.len() {
        vstd::set_lib::lemma_subset_equality(list.to_set(), all);
    }
}

/// Every cell that the walk reaches from a seed, each once and in ascending
/// order.
pub fn explore(tiles: &TileStore, walk: &Walk, seeds: &Vec<HexCoord>) -> (reached: Vec<HexCoord>)
    requires
        tiles.wf(),
        in_reach(tiles@.dom()),
        walk.wf(),
        forall|i: int| 0 <= i < seeds.len() ==> (#[trigger] seeds[i]).has_neighbors(),
    ensures
        ascending_cells(reached.deep_view()),
        reached.deep_view().no_duplicates(),
        forall|h: Hex|
            reached.deep_view().contains(h) <==> walk.graph(tiles@.dom()).reached(
                seeds.deep_view().to_set(),
                h,
            ),
{
    let ghost g = walk.graph(tiles@.dom());
    let ghost from = seeds.deep_view().to_set();
    proof {
        tiles.lemma_keys();
        walk.lemma_nodes(tiles@.dom());
    }
    let mut found: Vec<HexCoord> = Vec::new();
    let mut i: usize = 0;
    while i < seeds.len()
        invariant
            i <= seeds.len(),
            tiles.wf(),
            g == walk.graph(tiles@.dom()),
            from == seeds.deep_view().to_set(),
            forall|k: int| 0 <= k < seeds.len() ==> (#[trigger] seeds[k]).has_neighbors(),
            found.deep_view().no_duplicates(),
            forall|j: int|
                0 <= j < found.len() ==> g.reached(from, #[trigger] found.deep_view()[j]),
            forall|k: int|
                0 <= k < i && g.nodes.contains(seeds.deep_view()[k]) ==> found.deep_view().contains(
                    #[trigger] seeds.deep_view()[k],
                ),
        decreases seeds.len() - i,
    {
        let s = seeds[i];
        assert(seeds.deep_view()[i as int] == s@);
        let fresh = walk.holds(tiles, &s) && !lists(&found, &s);
        if fresh {
            let ghost before = found.deep_view();
            found.push(s);
            proof {
                assert(found.deep_view() =~= before.push(s@));
                lemma_pushed(before, s@);
                assert(g.reaches_in(s@, s@, 0));
                assert(g.reaches(s@, s@));
                assert(from.contains(s@));
            }
        }
        i += 1;
    }
    let mut next: usize = 0;
    proof {
        assert forall|j: int| 0 <= j < found.len() implies g.nodes.contains(
            #[trigger] found.deep_view()[j],
        ) by {
            lemma_reached_node(g, from, found.deep_view()[j]);
        }
        lemma_listed_len(found.deep_view(), g.nodes);
    }
    while next < found.len()
        invariant
            next <= found.len(),
            tiles.wf(),
            in_reach(tiles@.dom()),
            g == walk.graph(tiles@.dom()),
            g.nodes.finite(),
            forall|h: Hex| g.nodes.contains(h) ==> h.within(REACH + 1),
            found.len() <= g.nodes.len(),
            found.deep_view().no_duplicates(),
            forall|j: int|
                0 <= j < found.len() ==> g.reached(from, #[trigger] found.deep_view()[j]),
            forall|k: int|
                0 <= k < seeds.len() && g.nodes.contains(seeds.deep_view()[k])
                    ==> found.deep_view().contains(#[trigger] seeds.deep_view()[k]),
            forall|j: int, d: Hex|
                0 <= j < next && g.nodes.contains(d) && #[trigger] (g.edge)(
                    found.deep_view()[j],
                    d,
                ) ==> found.deep_view().contains(d),
        decreases g.nodes.len() - next,
    {
        let c = found[next];
        proof {
            assert(found.deep_view()[next as int] == c@);
            lemma_reached_node(g, from, c@);
        }
        let out = walk.next(tiles, &c);
        let mut k: usize = 0;
        while k < out.len()
            invariant
                k <= out.len(),
                next < found.len(),
                found.deep_view()[next as int] == c@,
                g.nodes.finite(),
                g.reached(from, c@),
                forall|h: Hex|
                    out.deep_view().contains(h) <==> g.nodes.contains(h) && (g.edge)(c@, h),
                found.deep_view().no_duplicates(),
                forall|j: int|
                    0 <= j < found.len() ==> g.reached(from, #[trigger] found.deep_view()[j]),
                forall|k: int|
                    0 <= k < seeds.len() && g.nodes.contains(seeds.deep_view()[k])
                        ==> found.deep_view().contains(#[trigger] seeds.deep_view()[k]),
                forall|j: int, d: Hex|
                    0 <= j < next && g.nodes.contains(d) && #[trigger] (g.edge)(
                        found.deep_view()[j],
                        d,
                    ) ==> found.deep_view().contains(d),
                forall|j: int|
                    0 <= j < k ==> found.deep_view().contains(#[trigger] out.deep_view()[j]),
            decreases out.len() - k,
        {
            let d = out[k];
            assert(out.deep_view()[k as int] == d@);
            if !lists(&found, &d) {
                let ghost before = found.deep_view();
                found.push(d);
                proof {
                    assert(found.deep_view() =~= before.push(d@));
                    lemma_pushed(before, d@);
                    assert(out.deep_view().contains(d@));
                    let a = choose|a: Hex| from.contains(a) && #[trigger] g.reaches(a, c@);
                    let n = choose|n: nat| g.reaches_in(a, c@, n);
                    g.lemma_extend(a, c@, d@, n);
                    assert(g.reached(from, d@));
                    assert forall|j: int, e: Hex|
                        0 <= j < next && g.nodes.contains(e) && #[trigger] (g.edge)(
                            found.deep_view()[j],
                            e,
                        ) implies found.deep_view().contains(e) by {
                        assert(before[j] == found.deep_view()[j]);
                        assert(before.contains(e));
                    }
                }
            }
            k += 1;
        }
        proof {
            assert forall|j: int, d: Hex|
                0 <= j < next + 1 && g.nodes.contains(d) && #[trigger] (g.edge)(
                    found.deep_view()[j],
                    d,
                ) implies found.deep_view().contains(d) by {
                if j == next {
                    assert(out.deep_view().contains(d));
                    let m = choose|m: int| 0 <= m < out.deep_view().len() && out.deep_view()[m] == d;
                    assert(found.deep_view().contains(out.deep_view()[m]));
                }
            }
            assert forall|j: int| 0 <= j < found.len() implies g.nodes.contains(
                #[trigger] found.deep_view()[j],
            ) by {
                lemma_reached_node(g, from, found.deep_view()[j]);
            }
            lemma_listed_len(found.deep_view(), g.nodes);
        }
        next += 1;
    }
    proof {
        let held = found.deep_view().to_set();
        assert(g.closed(held)) by {
            assert forall|c: Hex, d: Hex|
                held.contains(c) && g.nodes.contains(d) && #[trigger] (g.edge)(
                    c,
                    d,
                ) implies held.contains(d) by {
                let j = choose|j: int| 0 <= j < found.deep_view().len() && found.deep_view()[j] == c;
                assert((g.edge)(found.deep_view()[j], d));
            }
        }
        assert forall|h: Hex| found.deep_view().contains(h) <==> g.reached(from, h) by {
            if found.deep_view().contains(h) {
                let j = choose|j: int| 0 <= j < found.deep_view().len() && found.deep_view()[j] == h;
                assert(g.reached(from, found.deep_view()[j]));
            }
            if g.reached(from, h) {
                let a = choose|a: Hex| from.contains(a) && #[trigger] g.reaches(a, h);
                let n = choose|n: nat| g.reaches_in(a, h, n);
                g.lemma_ends(a, h, n);
                let k = choose|k: int| 0 <= k < seeds.deep_view().len() && seeds.deep_view()[k] == a;
                assert(found.deep_view().contains(seeds.deep_view()[k]));
                g.lemma_stays(held, a, h, n);
            }
        }
    }
    let reached = in_order(&found);
    proof {
        lemma_ascending_cells(reached.deep_view());
    }
    reached
}

/// What a seed reaches is a node.
pub proof fn lemma_reached_node(g: Graph, seeds: Set<Hex>, h: Hex)
    requires
        g.reached(seeds, h),
    ensures
        g.nodes.contains(h),
{
    let a = choose|a: Hex| seeds.contains(a) && #[trigger] g.reaches(a, h);
    let n = choose|n: nat| g.reaches_in(a, h, n);
    g.lemma_ends(a, h, n);
}

} // verus!
