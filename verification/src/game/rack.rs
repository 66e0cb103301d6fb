//! Models the scrabble Rack.
use crate::error::{GameError, GameResult};
use crate::game::letter_bag::LetterBag;
use crate::game::tile::Tile;
use crate::util::tile_counts::{count_in, expand, score_sum, sum, TileCounts};
use vstd::math::min;
use vstd::prelude::*;

verus! {

broadcast use crate::util::tile_counts::group_tile_counts, LetterBag::lemma_view_len;

/// The maximum number of tiles that can be stored on a player's rack.
pub const RACK_SIZE: usize = 7;

/// A full rack holds seven tiles, as the official rules say.
pub proof fn law_rack_size()
    ensures
        RACK_SIZE == 7,
{
}

/// Each player has a rack with up to 7 tiles on it, kept as a count
/// of each tile.
#[derive(Debug)]
pub struct Rack {
    counts: TileCounts,
}

impl Rack {
    #[verifier::type_invariant]
    spec fn inv(self) -> bool {
        self.counts.spec_len() <= RACK_SIZE
    }

    /// The count of each tile on the rack.
    pub closed spec fn view(&self) -> Seq<usize> {
        self.counts@
    }

    /// The number of tiles on the rack.
    pub open spec fn spec_len(&self) -> int {
        sum(self@)
    }

    /// A rack holds one count per tile.
    pub broadcast proof fn lemma_view_len(rack: Rack)
        ensures
            #[trigger] rack@.len() == 27,
    {
    }

    /// Creates a new [`Rack`], drawing [`RACK_SIZE`] letters
    /// from `letter_bag`, which must hold at least that many.
    pub fn new(letter_bag: &mut LetterBag) -> (rack: Rack)
        requires
            old(letter_bag).spec_len() >= RACK_SIZE,
        ensures
            rack.spec_len() == RACK_SIZE,
            forall|i: int| 0 <= i < 27 ==> #[trigger] final(letter_bag)@[i] + rack@[i] == old(letter_bag)@[i],
            final(letter_bag).spec_len() == old(letter_bag).spec_len() - RACK_SIZE,
    {
        let drawn = letter_bag.draw_many(RACK_SIZE);
        let counts = TileCounts::from_tiles(drawn.as_slice());
        Rack { counts }
    }

    /// Creates a new [`Rack`] with the first seven of `tiles`.
    pub fn new_with_tiles(tiles: &[Tile]) -> (rack: Rack)
        ensures
            forall|i: int| 0 <= i < 27 ==> #[trigger] rack@[i]
                == count_in(tiles@.subrange(0, min(tiles@.len() as int, RACK_SIZE as int)), i as nat),
            rack.spec_len() == min(tiles@.len() as int, RACK_SIZE as int),
    {
        let n: usize = if tiles.len() < RACK_SIZE { tiles.len() } else { RACK_SIZE };
        let mut first: Vec<Tile> = Vec::new();
        let mut i: usize = 0;
        while i < n
            invariant
                i <= n,
                n <= tiles@.len(),
                first@ == tiles@.subrange(0, i as int),
            decreases n - i,
        {
            first.push(tiles[i]);
            i = i + 1;
            assert(first@ =~= tiles@.subrange(0, i as int));
        }
        Rack { counts: TileCounts::from_tiles(first.as_slice()) }
    }

    /// Get the underlying tile counts for the rack.
    pub fn tile_counts(&self) -> (tc: &TileCounts)
        ensures
            tc@ == self@,
            tc.spec_len() <= RACK_SIZE,
    {
        proof {
            use_type_invariant(self);
        }
        &self.counts
    }

    /// Gets the sum of the scores of the tiles on the rack. This is used
    /// for scoring at the end of the game.
    pub fn tile_sum(&self) -> (r: usize)
        ensures
            r == score_sum(self@),
            r <= 70,
    {
        proof {
            use_type_invariant(self);
            crate::util::tile_counts::lemma_score_sum_bound(self.counts@);
        }
        self.counts.tile_sum()
    }

    /// Adds tiles from `letter_bag` to attempt to increase the
    /// number of tiles in the rack to [`RACK_SIZE`].
    pub fn refill(&mut self, letter_bag: &mut LetterBag)
        ensures
            final(self).spec_len() == old(self).spec_len() + min(
                RACK_SIZE - old(self).spec_len(),
                old(letter_bag).spec_len(),
            ),
            forall|i: int| 0 <= i < 27 ==> #[trigger] final(letter_bag)@[i] + final(self)@[i]
                == old(letter_bag)@[i] + old(self)@[i],
            forall|i: int| 0 <= i < 27 ==> old(self)@[i] <= #[trigger] final(self)@[i],
            final(letter_bag).spec_len() <= old(letter_bag).spec_len(),
    {
        proof {
            use_type_invariant(&*self);
        }
        proof {
            crate::util::tile_counts::lemma_sum_nonneg(self@);
        }
        let missing = self.missing_count();
        let ghost bag_len = letter_bag.spec_len();
        let drawn = letter_bag.draw_many(missing);
        assert(min(min(missing as int, RACK_SIZE as int), bag_len) == min(missing as int, bag_len));
        let mut counts = self.counts;
        counts.insert(drawn.as_slice());
        *self = Rack { counts };
    }

    /// Gets the number of tiles below [`RACK_SIZE`] in the rack.
    pub fn missing_count(&self) -> (r: usize)
        ensures
            r == RACK_SIZE - self.spec_len(),
    {
        proof {
            use_type_invariant(self);
        }
        RACK_SIZE - self.len()
    }

    /// Gets the number of tiles in the rack.
    pub fn len(&self) -> (r: usize)
        ensures
            r == self.spec_len(),
            r <= RACK_SIZE,
    {
        proof {
            use_type_invariant(self);
        }
        self.counts.len()
    }

    /// Checks whether the rack is empty.
    pub fn is_empty(&self) -> (r: bool)
        ensures
            r == (self.spec_len() == 0),
    {
        self.counts.is_empty()
    }

    /// Exchanges the tiles provided with new ones in the `letter_bag`.
    /// Between 1 and 7 tiles may be exchanged, the bag must hold at least
    /// as many tiles, and the rack must hold all of them.
    pub fn exchange_tiles(&mut self, tiles: &[Tile], letter_bag: &mut LetterBag) -> (r: GameResult<()>)
        requires
            old(letter_bag).spec_len() + RACK_SIZE <= usize::MAX,
        ensures
            r == (if !(1 <= tiles@.len() <= 7) {
                Err(GameError::RedrawCount)
            } else if old(letter_bag).spec_len() < tiles@.len() {
                Err(GameError::NotEnoughLetters)
            } else if !(forall|i: nat| i < 27 ==> #[trigger] count_in(tiles@, i) <= old(self)@[i as int]) {
                Err(GameError::NotInRack)
            } else {
                Ok(())
            }),
            r is Err ==> *final(self) == *old(self) && final(letter_bag)@ == old(letter_bag)@,
            r is Ok ==> {
                &&& final(self).spec_len() == old(self).spec_len()
                &&& final(letter_bag).spec_len() == old(letter_bag).spec_len()
                &&& forall|i: int| 0 <= i < 27 ==> #[trigger] final(letter_bag)@[i] + final(self)@[i]
                    == old(letter_bag)@[i] + old(self)@[i]
                &&& forall|i: int| 0 <= i < 27 ==> #[trigger] final(letter_bag)@[i] >= count_in(tiles@, i as nat)
                &&& forall|i: int| 0 <= i < 27 ==> old(self)@[i] - count_in(tiles@, i as nat) <= #[trigger] final(self)@[i]
                &&& forall|i: int|
                    0 <= i < 27 ==> #[trigger] final(self)@[i] - (old(self)@[i] - count_in(tiles@, i as nat))
                        <= old(letter_bag)@[i]
            },
    {
        proof {
            use_type_invariant(&*self);
        }
        if !(1 <= tiles.len() && tiles.len() <= 7) {
            return Err(GameError::RedrawCount);
        }
        if letter_bag.len() < tiles.len() {
            return Err(GameError::NotEnoughLetters);
        }
        if !self.counts.contains(tiles) {
            return Err(GameError::NotInRack);
        }
        let mut counts = self.counts;
        counts.remove(tiles);
        let ghost c1 = counts@;
        let ghost b0 = letter_bag@;
        let drawn = letter_bag.draw_many(tiles.len());
        let ghost b1 = letter_bag@;
        counts.insert(drawn.as_slice());
        *self = Rack { counts };
        let n = letter_bag.add_tiles(tiles);
        assert(tiles@.subrange(0, n as int) =~= tiles@);
        proof {
            assert forall|i: int| 0 <= i < 27 implies #[trigger] self@[i] - (old(self)@[i] - count_in(
                tiles@,
                i as nat,
            )) <= old(letter_bag)@[i] by {
                assert(self@[i] == c1[i] + count_in(drawn@, i as nat));
                assert(c1[i] == old(self)@[i] - count_in(tiles@, i as nat));
                assert(b1[i] + count_in(drawn@, i as nat) == b0[i]);
                assert(b0 == old(letter_bag)@);
            }
        }
        Ok(())
    }

    /// Checks whether all `tiles` are contained within the rack.
    pub fn contains(&self, tiles: &[Tile]) -> (r: bool)
        ensures
            r == (forall|i: nat| i < 27 ==> #[trigger] count_in(tiles@, i) <= self@[i as int]),
    {
        self.counts.contains(tiles)
    }

    /// Removes all `tiles` from the rack; the rack must hold them.
    pub fn remove(&mut self, tiles: &[Tile])
        requires
            forall|i: nat| i < 27 ==> #[trigger] count_in(tiles@, i) <= old(self)@[i as int],
        ensures
            forall|i: int| 0 <= i < 27 ==> #[trigger] final(self)@[i] == old(self)@[i] - count_in(tiles@, i as nat),
            final(self).spec_len() == old(self).spec_len() - tiles@.len(),
    {
        proof {
            use_type_invariant(&*self);
        }
        let mut counts = self.counts;
        counts.remove(tiles);
        *self = Rack { counts };
    }

    /// Gets the tiles in the rack, in order of tile number.
    pub fn iter(&self) -> (r: Vec<Tile>)
        ensures
            r@ == expand(self@, 27),
    {
        self.counts.iter()
    }
}

} // verus!
