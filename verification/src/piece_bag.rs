//! The pieces a player has yet to place.

use vstd::prelude::*;
use crate::tile_types::TileType;

verus! {

/// How many ants a player starts with.
pub const STARTING_ANTS: usize = 6;

/// How many pieces a player starts with.
pub const STARTING_TOTAL: usize = 1 + STARTING_ANTS;

/// What a bag holds.
pub ghost struct Stock {
    pub queen: bool,
    pub ants: nat,
}

impl Stock {
    /// The bag holds a piece of this kind.
    pub open spec fn has(self, kind: TileType) -> bool {
        match kind {
            TileType::Queen => self.queen,
            TileType::Ant => self.ants > 0,
        }
    }

    /// The bag with a piece of this kind taken out.
    pub open spec fn without(self, kind: TileType) -> Stock {
        match kind {
            TileType::Queen => Stock { queen: false, ants: self.ants },
            TileType::Ant => Stock { queen: self.queen, ants: (self.ants - 1) as nat },
        }
    }

    /// The bag with a piece of this kind put back.
    pub open spec fn with(self, kind: TileType) -> Stock {
        match kind {
            TileType::Queen => Stock { queen: true, ants: self.ants },
            TileType::Ant => Stock { queen: self.queen, ants: self.ants + 1 },
        }
    }

    /// It is missing from the bag.
    pub open spec fn lacks(self, kind: TileType) -> bool {
        match kind {
            TileType::Queen => !self.queen,
            TileType::Ant => self.ants < STARTING_ANTS,
        }
    }

    /// The kinds that may be placed: the queen alone where she is forced and
    /// still in the bag, else every kind the bag holds, the queen first.
    pub open spec fn options(self, is_queen_forced: bool) -> Seq<TileType> {
        if is_queen_forced && self.queen {
            seq![TileType::Queen]
        } else {
            (if self.queen {
                seq![TileType::Queen]
            } else {
                seq![]
            }) + (if self.ants > 0 {
                seq![TileType::Ant]
            } else {
                seq![]
            })
        }
    }

    /// No more ants than a player starts with.
    pub open spec fn wf(self) -> bool {
        self.ants <= STARTING_ANTS
    }
}

/// A kind is offered exactly when the bag holds it and the queen, where she
/// is forced and held, is the only kind asked for.
pub proof fn lemma_options(stock: Stock, is_queen_forced: bool, kind: TileType)
    ensures
        stock.options(is_queen_forced).contains(kind) <==> stock.has(kind) && (is_queen_forced
            && stock.queen ==> kind == TileType::Queen),
        stock.options(is_queen_forced).no_duplicates(),
{
    let o = stock.options(is_queen_forced);
    if o.contains(kind) {
        let i = choose|i: int| 0 <= i < o.len() && o[i] == kind;
    }
    if stock.has(kind) && (is_queen_forced && stock.queen ==> kind == TileType::Queen) {
        if kind == TileType::Queen {
            assert(o[0] == kind);
        } else {
            assert(o[o.len() - 1] == kind);
        }
    }
}

#[derive(Clone, Copy, Debug, PartialEq, Eq)]
pub struct PieceBag {
    queen: bool,
    ants: usize,
}

impl View for PieceBag {
    type V = Stock;

    closed spec fn view(&self) -> Stock {
        Stock { queen: self.queen, ants: self.ants as nat }
    }
}

impl PieceBag {
    pub fn new() -> (bag: PieceBag)
        ensures
            bag@ == (Stock { queen: true, ants: STARTING_ANTS as nat }),
    {
        PieceBag { queen: true, ants: STARTING_ANTS }
    }

    /// Whether the queen is still in the bag.
    pub fn has_queen(&self) -> (queen: bool)
        ensures
            queen == self@.queen,
    {
        self.queen
    }

    /// How many ants are still in the bag.
    pub fn ants(&self) -> (ants: usize)
        ensures
            ants == self@.ants,
    {
        self.ants
    }

    pub fn get_place_options(&self, is_queen_forced: bool) -> (options: Vec<TileType>)
        ensures
            options@ == self@.options(is_queen_forced),
    {
        if is_queen_forced && self.queen {
            return vec![TileType::Queen];
        }
        let mut options = Vec::with_capacity(TileType::VARIANT_COUNT);

        if self.queen {
            options.push(TileType::Queen);
        }
        if self.ants > 0 {
            options.push(TileType::Ant);
        }
        options
    }

    pub fn use_piece(&mut self, tile_type: TileType)
        requires
            old(self)@.has(tile_type),
        ensures
            final(self)@ == old(self)@.without(tile_type),
    {
        match tile_type {
            TileType::Queen => {
                self.queen = false;
            },
            TileType::Ant => {
                self.ants -= 1;
            },
        }
    }

    pub fn unuse_piece(&mut self, tile_type: TileType)
        requires
            old(self)@.lacks(tile_type),
        ensures
            final(self)@ == old(self)@.with(tile_type),
    {
        match tile_type {
            TileType::Queen => {
                self.queen = true;
            },
            TileType::Ant => {
                self.ants += 1;
            },
        }
    }
}

} // verus!
