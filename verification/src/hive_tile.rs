//! A piece on the board, with whatever lies on top of it.

use vstd::prelude::*;

pub use crate::tile_types::TileType;

verus! {

/// One piece: whose it is and of what kind.
pub ghost struct Piece {
    pub team: bool,
    pub kind: TileType,
}

/// A piece that owns the piece placed on top of it, if any.
///
/// Its view is the stack it heads, bottom first; the view is never empty.
#[derive(Debug, PartialEq, Eq)]
pub struct HiveTile {
    team: bool,
    tile_type: TileType,
    above: Option<Box<HiveTile>>,
}

impl View for HiveTile {
    type V = Seq<Piece>;

    closed spec fn view(&self) -> Seq<Piece> {
        self.stack()
    }
}

impl Clone for HiveTile {
    fn clone(&self) -> (tile: HiveTile)
        ensures
            tile == *self,
        decreases self,
    {
        HiveTile {
            team: self.team,
            tile_type: self.tile_type,
            above: (match &self.above {
                Some(rest) => Some(Box::new((&**rest).clone())),
                None => None,
            }),
        }
    }
}

impl HiveTile {
    /// The pieces from this one upwards.
    pub closed spec fn stack(&self) -> Seq<Piece>
        decreases self,
    {
        let bottom = seq![Piece { team: self.team, kind: self.tile_type }];
        match self.above {
            None => bottom,
            Some(rest) => bottom + rest.stack(),
        }
    }

    /// A stack holds at least the piece that heads it.
    pub proof fn lemma_nonempty(&self)
        ensures
            self@.len() >= 1,
        decreases self,
    {
        match self.above {
            None => {},
            Some(rest) => {
                rest.lemma_nonempty();
            },
        }
    }

    pub fn new(team: bool, tile_type: TileType) -> (tile: HiveTile)
        ensures
            tile@ == seq![Piece { team, kind: tile_type }],
    {
        HiveTile { team, tile_type, above: None }
    }

    /// The piece that nothing covers.
    pub fn top(&self) -> (tile: &HiveTile)
        ensures
            tile@ == seq![self@.last()],
        decreases self,
    {
        if let Some(above) = &self.above {
            proof {
                above.lemma_nonempty();
            }
            above.top()
        } else {
            &self
        }
    }

    /// The owner of the piece at the bottom.
    pub fn team(&self) -> (team: &bool)
        ensures
            *team == self@[0].team,
    {
        &self.team
    }

    /// The kind of the piece at the bottom.
    pub fn tile_type(&self) -> (kind: &TileType)
        ensures
            *kind == self@[0].kind,
    {
        &self.tile_type
    }

    /// What lies on the bottom piece.
    pub fn above(&self) -> (above: &Option<Box<HiveTile>>)
        ensures
            above is None <==> self@.len() == 1,
            above matches Some(rest) ==> rest@ == self@.drop_first(),
    {
        proof {
            if let Some(rest) = &self.above {
                rest.lemma_nonempty();
            }
        }
        &self.above
    }
}

} // verus!
