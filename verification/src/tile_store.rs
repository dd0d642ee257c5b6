//! The tiles on the board, by coordinate.

use vstd::prelude::*;
use crate::hex_coord::{Hex, HexCoord};
use crate::hive_tile::{HiveTile, Piece};

verus! {

/// At most one tile per coordinate.
///
/// Its view maps each occupied cell to the stack that stands on it. The tiles
/// are kept in a list; `keys` is the order in which the list holds them.
#[derive(Debug)]
pub struct TileStore {
    entries: Vec<(HexCoord, HiveTile)>,
}

impl View for TileStore {
    type V = Map<Hex, Seq<Piece>>;

    closed spec fn view(&self) -> Map<Hex, Seq<Piece>> {
        Map::new(
            |h: Hex| self.keys().contains(h),
            |h: Hex| self.entries@[self.keys().index_of(h)].1@,
        )
    }
}

impl Clone for TileStore {
    fn clone(&self) -> (tiles: TileStore)
        ensures
            tiles.wf() == self.wf(),
            tiles@ == self@,
            tiles.keys() == self.keys(),
    {
        let mut entries: Vec<(HexCoord, HiveTile)> = Vec::with_capacity(self.entries.len());
        let mut i: usize = 0;
        while i < self.entries.len()
            invariant
                i <= self.entries@.len(),
                entries@ == self.entries@.take(i as int),
            decreases self.entries@.len() - i,
        {
            let tile = self.entries[i].1.clone();
            entries.push((self.entries[i].0, tile));
            assert(entries@ =~= self.entries@.take(i as int + 1));
            i += 1;
        }
        assert(entries@ =~= self.entries@);
        TileStore { entries }
    }
}

impl TileStore {
    /// The occupied cells, in the order of the list.
    pub closed spec fn keys(&self) -> Seq<Hex> {
        Seq::new(self.entries@.len(), |i: int| self.entries@[i].0@)
    }

    /// The list of cells once `key` is taken out of it.
    pub open spec fn keys_without(&self, key: Hex) -> Seq<Hex> {
        if self.keys().contains(key) {
            self.keys().remove(self.keys().index_of(key))
        } else {
            self.keys()
        }
    }

    /// No cell is listed twice.
    pub closed spec fn wf(&self) -> bool {
        self.keys().no_duplicates()
    }

    /// The list and the map hold the same cells, each once, and no stack is
    /// empty.
    pub proof fn lemma_keys(&self)
        requires
            self.wf(),
        ensures
            self.keys().no_duplicates(),
            forall|h: Hex| self.keys().contains(h) <==> self@.contains_key(h),
            forall|i: int| 0 <= i < self.keys().len() ==> self@.contains_key(#[trigger] self.keys()[i]),
            self@.dom().finite(),
            self@.dom().len() == self.keys().len(),
            forall|h: Hex| self@.contains_key(h) ==> (#[trigger] self@[h]).len() >= 1,
    {
        let keys = self.keys();
        assert(self@.dom() =~= keys.to_set());
        vstd::seq_lib::seq_to_set_is_finite(keys);
        keys.unique_seq_to_set();
        assert forall|h: Hex| self@.contains_key(h) implies (#[trigger] self@[h]).len() >= 1 by {
            self.entries@[keys.index_of(h)].1.lemma_nonempty();
        }
    }

    proof fn lemma_entry(&self, i: int)
        requires
            self.wf(),
            0 <= i < self.entries@.len(),
        ensures
            self.keys()[i] == self.entries@[i].0@,
            self@.contains_key(self.entries@[i].0@),
            self@[self.entries@[i].0@] == self.entries@[i].1@,
    {
        let keys = self.keys();
        let h = keys[i];
        assert(keys.contains(h));
        let j = keys.index_of(h);
        assert(j == i);
    }

    pub fn new() -> (tiles: TileStore)
        ensures
            tiles.wf(),
            tiles@ == Map::<Hex, Seq<Piece>>::empty(),
    {
        let tiles = TileStore { entries: Vec::new() };
        assert(tiles@ =~= Map::<Hex, Seq<Piece>>::empty());
        tiles
    }

    pub fn with_capacity(capacity: usize) -> (tiles: TileStore)
        ensures
            tiles.wf(),
            tiles@ == Map::<Hex, Seq<Piece>>::empty(),
    {
        let tiles = TileStore { entries: Vec::with_capacity(capacity) };
        assert(tiles@ =~= Map::<Hex, Seq<Piece>>::empty());
        tiles
    }

    pub fn len(&self) -> (n: usize)
        requires
            self.wf(),
        ensures
            n == self@.dom().len(),
            n == self.keys().len(),
    {
        proof {
            self.lemma_keys();
        }
        self.entries.len()
    }

    /// Where the list holds `key`, if it does.
    fn find(&self, key: &HexCoord) -> (at: Option<usize>)
        requires
            self.wf(),
        ensures
            match at {
                Some(i) => i < self.entries@.len() && self.entries@[i as int].0 == *key,
                None => !self@.contains_key(key@),
            },
    {
        let mut i: usize = 0;
        while i < self.entries.len()
            invariant
                i <= self.entries@.len(),
                forall|j: int| 0 <= j < i ==> self.entries@[j].0 != *key,
            decreases self.entries@.len() - i,
        {
            if self.entries[i].0.x == key.x && self.entries[i].0.y == key.y {
                return Some(i);
            }
            i += 1;
        }
        proof {
            if self@.contains_key(key@) {
                let j = self.keys().index_of(key@);
                assert(self.entries@[j].0@ == key@);
            }
        }
        None
    }

    pub fn contains_key(&self, key: &HexCoord) -> (held: bool)
        requires
            self.wf(),
        ensures
            held == self@.contains_key(key@),
    {
        match self.find(key) {
            Some(i) => {
                proof {
                    self.lemma_entry(i as int);
                }
                true
            },
            None => false,
        }
    }

    pub fn get(&self, key: &HexCoord) -> (tile: Option<&HiveTile>)
        requires
            self.wf(),
        ensures
            match tile {
                Some(t) => self@.contains_key(key@) && t@ == self@[key@],
                None => !self@.contains_key(key@),
            },
    {
        match self.find(key) {
            Some(i) => {
                proof {
                    self.lemma_entry(i as int);
                }
                Some(&self.entries[i].1)
            },
            None => None,
        }
    }

    /// The `i`-th cell of the list.
    pub fn key_at(&self, i: usize) -> (key: HexCoord)
        requires
            self.wf(),
            i < self.keys().len(),
        ensures
            key@ == self.keys()[i as int],
    {
        self.entries[i].0
    }

    /// The tile on the `i`-th cell of the list.
    pub fn tile_at(&self, i: usize) -> (tile: &HiveTile)
        requires
            self.wf(),
            i < self.keys().len(),
        ensures
            self@.contains_key(self.keys()[i as int]),
            tile@ == self@[self.keys()[i as int]],
    {
        proof {
            self.lemma_entry(i as int);
        }
        &self.entries[i].1
    }

    /// Puts `tile` on `key`, and hands back the tile that stood there. The
    /// cell is then the last of the list.
    pub fn insert(&mut self, key: HexCoord, tile: HiveTile) -> (before: Option<HiveTile>)
        requires
            old(self).wf(),
        ensures
            final(self).wf(),
            final(self)@ == old(self)@.insert(key@, tile@),
            final(self).keys() == old(self).keys_without(key@).push(key@),
            match before {
                Some(t) => old(self)@.contains_key(key@) && t@ == old(self)@[key@],
                None => !old(self)@.contains_key(key@),
            },
    {
        let before = self.remove(&key);
        let ghost mid = *self;
        self.entries.push((key, tile));
        proof {
            let keys = self.keys();
            assert(keys =~= mid.keys().push(key@));
            mid.lemma_keys();
            assert(keys.no_duplicates());
            assert forall|h: Hex| self@.contains_key(h) <==> mid@.insert(key@, tile@).contains_key(
                h,
            ) by {
                if mid.keys().contains(h) {
                    let j = mid.keys().index_of(h);
                    assert(keys[j] == h);
                }
                if h == key@ {
                    assert(keys[keys.len() - 1] == h);
                }
            }
            assert forall|h: Hex| self@.contains_key(h) implies self@[h] == mid@.insert(
                key@,
                tile@,
            )[h] by {
                let j = keys.index_of(h);
                self.lemma_entry(j);
                if j < mid.keys().len() {
                    mid.lemma_entry(j);
                }
            }
            assert(self@ =~= mid@.insert(key@, tile@));
            assert(mid@.insert(key@, tile@) =~= old(self)@.insert(key@, tile@));
        }
        before
    }

    /// Clears `key`, and hands back the tile that stood there. The other
    /// cells keep their order.
    pub fn remove(&mut self, key: &HexCoord) -> (tile: Option<HiveTile>)
        requires
            old(self).wf(),
        ensures
            final(self).wf(),
            final(self)@ == old(self)@.remove(key@),
            final(self).keys() == old(self).keys_without(key@),
            match tile {
                Some(t) => old(self)@.contains_key(key@) && t@ == old(self)@[key@],
                None => !old(self)@.contains_key(key@),
            },
    {
        match self.find(key) {
            Some(i) => {
                proof {
                    self.lemma_entry(i as int);
                }
                let entry = self.entries.remove(i);
                proof {
                    let before = old(self).keys();
                    let keys = self.keys();
                    assert(before.contains(key@));
                    assert(before.index_of(key@) == i);
                    assert(keys =~= before.remove(i as int));
                    assert forall|a: int, b: int|
                        0 <= a < keys.len() && 0 <= b < keys.len() && a != b implies keys[a]
                        != keys[b] by {
                        let a0 = if a < i { a } else { a + 1 };
                        let b0 = if b < i { b } else { b + 1 };
                        assert(keys[a] == before[a0] && keys[b] == before[b0]);
                    }
                    assert forall|h: Hex| self@.contains_key(h) <==> old(self)@.remove(
                        key@,
                    ).contains_key(h) by {
                        if keys.contains(h) {
                            let j = keys.index_of(h);
                            let j0 = if j < i { j } else { j + 1 };
                            assert(before[j0] == h);
                        }
                        if before.contains(h) && h != key@ {
                            let j0 = before.index_of(h);
                            let j = if j0 < i { j0 } else { j0 - 1 };
                            assert(keys[j] == h);
                        }
                    }
                    assert forall|h: Hex| self@.contains_key(h) implies self@[h] == old(
                        self,
                    )@.remove(key@)[h] by {
                        let j = keys.index_of(h);
                        let j0 = if j < i { j } else { j + 1 };
                        self.lemma_entry(j);
                        old(self).lemma_entry(j0);
                    }
                    assert(self@ =~= old(self)@.remove(key@));
                }
                Some(entry.1)
            },
            None => {
                proof {
                    self.lemma_keys();
                    assert(self@ =~= old(self)@.remove(key@));
                }
                None
            },
        }
    }
}

} // verus!
