//! A structure storing the tiles on the board, either as laid out
//! (horizontally) or with rows and columns swapped (vertically).
use crate::game::tile::Tile;
use crate::util::bitboard::BitBoard;
use crate::util::pos::{Pos, CELLS};
use crate::util::words::WordBoundaries;
use vstd::prelude::*;

verus! {

broadcast use crate::util::pos::group_pos, crate::util::bitboard::group_bitboard;

/// The tiles on a grid and a bitboard of the occupied squares, which are
/// kept in step.
#[derive(Debug, Clone, Copy)]
pub struct Grid {
    tiles: [Option<Tile>; 225],
    occ: BitBoard,
}

impl Grid {
    #[verifier::type_invariant]
    spec fn inv(self) -> bool {
        forall|i: int| 0 <= i < 225 ==> (#[trigger] self.tiles@[i] is Some <==> self.occ@.contains(i))
    }

    /// The tile on each square, numbered `0..225`.
    pub closed spec fn view(&self) -> Seq<Option<Tile>> {
        self.tiles@
    }

    /// The occupied squares.
    pub closed spec fn spec_occ(&self) -> BitBoard {
        self.occ
    }

    /// A grid has 225 squares, and its occupancy is the set of squares
    /// holding a tile.
    pub broadcast proof fn lemma_grid(g: Grid)
        ensures
            #![trigger g@]
            g@.len() == 225,
    {
    }

    /// An empty grid.
    pub fn new() -> (g: Grid)
        ensures
            forall|i: int| 0 <= i < 225 ==> #[trigger] g@[i] is None,
            g.spec_occ()@ == Set::<int>::empty(),
    {
        let tiles: [Option<Tile>; 225] = vstd::array::array_fill_for_copy_types(None);
        let occ = BitBoard::zero();
        proof {
            assert forall|i: int| 0 <= i < 225 implies #[trigger] tiles@[i] is None by {
                assert(tiles == vstd::array::spec_array_fill_for_copy_type::<Option<Tile>, 225>(None));
            }
        }
        Grid { tiles, occ }
    }

    /// Gets the tile at `pos`.
    pub fn at(&self, pos: Pos) -> (r: Option<Tile>)
        ensures
            r == self@[pos@],
            r is Some <==> self.spec_occ()@.contains(pos@),
    {
        proof {
            use_type_invariant(self);
        }
        self.tiles[pos.index()]
    }

    /// Sets the tile at `pos` on the grid.
    pub fn set(&mut self, pos: Pos, tile: Option<Tile>)
        ensures
            final(self)@ == old(self)@.update(pos@, tile),
            final(self).spec_occ()@ == (if tile is Some {
                old(self).spec_occ()@.insert(pos@)
            } else {
                old(self).spec_occ()@.remove(pos@)
            }),
    {
        proof {
            use_type_invariant(&*self);
        }
        let mut occ = self.occ;
        match tile {
            Some(_) => occ.set(pos),
            None => occ.clear(pos),
        }
        let mut tiles = self.tiles;
        tiles[pos.index()] = tile;
        *self = Grid { tiles, occ };
    }

    /// Gets a bitboard storing the occupancy for the grid.
    pub fn occ(&self) -> (b: &BitBoard)
        ensures
            *b == self.spec_occ(),
            forall|i: int| 0 <= i < 225 ==> (#[trigger] self@[i] is Some <==> b@.contains(i)),
    {
        proof {
            use_type_invariant(self);
        }
        &self.occ
    }

    /// Gets the boundaries of the horizontal words on the grid.
    pub fn word_boundaries(&self) -> (w: WordBoundaries)
        ensures
            w@ == crate::util::bitboard::word_ends(self.spec_occ()@),
    {
        WordBoundaries::new(self.occ)
    }
}

impl Default for Grid {
    fn default() -> (g: Grid)
        ensures
            forall|i: int| 0 <= i < 225 ==> #[trigger] g@[i] is None,
            g.spec_occ()@ == Set::<int>::empty(),
    {
        Grid::new()
    }
}

} // verus!
