//! Models the [`LetterBag`].
use crate::game::rack::RACK_SIZE;
use crate::game::tile::Tile;
use crate::util::tile_counts::{
    count_in, lemma_count_in_push, lemma_entry_le_sum, lemma_sum_nonneg, lemma_sum_prefix_le,
    sum, TileCounts,
};
use rand::Rng;
use vstd::math::min;
use vstd::prelude::*;

verus! {

broadcast use crate::util::tile_counts::group_tile_counts;

/// The number of each tile in the official game, `i` numbering the tile.
pub open spec fn initial_count_of(i: nat) -> nat {
    if i == 0 { 9 }
    else if i == 1 { 2 }
    else if i == 2 { 2 }
    else if i == 3 { 4 }
    else if i == 4 { 12 }
    else if i == 5 { 2 }
    else if i == 6 { 3 }
    else if i == 7 { 2 }
    else if i == 8 { 9 }
    else if i == 9 { 1 }
    else if i == 10 { 1 }
    else if i == 11 { 4 }
    else if i == 12 { 2 }
    else if i == 13 { 6 }
    else if i == 14 { 8 }
    else if i == 15 { 2 }
    else if i == 16 { 1 }
    else if i == 17 { 6 }
    else if i == 18 { 4 }
    else if i == 19 { 6 }
    else if i == 20 { 4 }
    else if i == 21 { 2 }
    else if i == 22 { 2 }
    else if i == 23 { 1 }
    else if i == 24 { 2 }
    else if i == 25 { 1 }
    else if i == 26 { 2 }
    else { 0 }
}

/// The official distribution of the hundred tiles: nine A, two B, two C,
/// four D, twelve E, two F, three G, two H, nine I, one J, one K, four L,
/// two M, six N, eight O, two P, one Q, six R, four S, six T, four U, two
/// V, two W, one X, two Y, one Z and two blanks.
pub proof fn law_official_counts()
    ensures
        initial_count_of(0) == 9,  // A
        initial_count_of(1) == 2,  // B
        initial_count_of(2) == 2,  // C
        initial_count_of(3) == 4,  // D
        initial_count_of(4) == 12,  // E
        initial_count_of(5) == 2,  // F
        initial_count_of(6) == 3,  // G
        initial_count_of(7) == 2,  // H
        initial_count_of(8) == 9,  // I
        initial_count_of(9) == 1,  // J
        initial_count_of(10) == 1,  // K
        initial_count_of(11) == 4,  // L
        initial_count_of(12) == 2,  // M
        initial_count_of(13) == 6,  // N
        initial_count_of(14) == 8,  // O
        initial_count_of(15) == 2,  // P
        initial_count_of(16) == 1,  // Q
        initial_count_of(17) == 6,  // R
        initial_count_of(18) == 4,  // S
        initial_count_of(19) == 6,  // T
        initial_count_of(20) == 4,  // U
        initial_count_of(21) == 2,  // V
        initial_count_of(22) == 2,  // W
        initial_count_of(23) == 1,  // X
        initial_count_of(24) == 2,  // Y
        initial_count_of(25) == 1,  // Z
        initial_count_of(26) == 2,  // blank
{
}

/// Picks a number uniformly in `0..len` by calling `gen_range(0..len)` on
/// `rand::thread_rng()`. rand documents that the value lies in the
/// half-open range and that an empty range panics; which value comes back
/// is left open.
#[verifier::external_body]
fn random_below(len: usize) -> (r: usize)
    requires
        len > 0,
    ensures
        r < len,
{
    rand::thread_rng().gen_range(0..len)
}

/// A structure containing a finite number of tiles which can
/// be used during the game, counted per tile.
#[derive(Debug)]
pub struct LetterBag {
    counts: TileCounts,
}

impl LetterBag {
    /// The count of each tile in the bag.
    pub closed spec fn view(&self) -> Seq<usize> {
        self.counts@
    }

    /// The number of tiles in the bag.
    pub open spec fn spec_len(&self) -> int {
        sum(self@)
    }

    /// The bag holds one count per tile.
    pub broadcast proof fn lemma_view_len(bag: LetterBag)
        ensures
            #[trigger] bag@.len() == 27,
    {
    }

    /// Creates a bag from an array with one count per tile.
    pub fn from_array(counts: [usize; 27]) -> (bag: LetterBag)
        requires
            sum(counts@) <= usize::MAX,
        ensures
            bag@ == counts@,
    {
        LetterBag { counts: TileCounts::from_array(counts) }
    }

    /// A bag with the tiles of the official game.
    pub fn new() -> (bag: LetterBag)
        ensures
            forall|i: int| 0 <= i < 27 ==> #[trigger] bag@[i] == initial_count_of(i as nat),
            bag.spec_len() == 100,
    {
        let mut counts: [usize; 27] = [0; 27];
        let mut i: usize = 0;
        while i < 27
            invariant
                i <= 27,
                forall|k: int| 0 <= k < i ==> #[trigger] counts@[k] == initial_count_of(k as nat),
            decreases 27 - i,
        {
            counts[i] = Self::initial_count(Tile::from_index(i));
            i = i + 1;
        }
        proof {
            reveal_with_fuel(sum, 28);
            assert(counts@.len() == 27);
            assert(sum(counts@) == 100);
        }
        Self::from_array(counts)
    }

    /// Checks whether the bag is empty.
    pub fn is_empty(&self) -> (r: bool)
        ensures
            r == (self.spec_len() == 0),
    {
        self.counts.is_empty()
    }

    /// Returns the total number of tiles remaining in the bag.
    pub fn len(&self) -> (r: usize)
        ensures
            r == self.spec_len(),
    {
        self.counts.len()
    }

    /// Gets the underlying tile counts.
    pub fn counts(self) -> (tc: TileCounts)
        ensures
            tc@ == self@,
    {
        self.counts
    }

    /// Gets the initial count for `tile` in the official version
    /// of scrabble.
    pub fn initial_count(tile: Tile) -> (r: usize)
        ensures
            r == initial_count_of(tile.index()),
    {
        let i = tile.to_index();
        if i == 0 { 9 }
        else if i == 1 { 2 }
        else if i == 2 { 2 }
        else if i == 3 { 4 }
        else if i == 4 { 12 }
        else if i == 5 { 2 }
        else if i == 6 { 3 }
        else if i == 7 { 2 }
        else if i == 8 { 9 }
        else if i == 9 { 1 }
        else if i == 10 { 1 }
        else if i == 11 { 4 }
        else if i == 12 { 2 }
        else if i == 13 { 6 }
        else if i == 14 { 8 }
        else if i == 15 { 2 }
        else if i == 16 { 1 }
        else if i == 17 { 6 }
        else if i == 18 { 4 }
        else if i == 19 { 6 }
        else if i == 20 { 4 }
        else if i == 21 { 2 }
        else if i == 22 { 2 }
        else if i == 23 { 1 }
        else if i == 24 { 2 }
        else if i == 25 { 1 }
        else { 2 }
    }

    /// Takes out the tile at position `idx` as though all tiles in the
    /// bag were laid out in a single array in order of tile number.
    pub fn draw_at(&mut self, idx: usize) -> (t: Tile)
        requires
            idx < old(self).spec_len(),
        ensures
            t.index() < 27,
            t == Tile::spec_from_index(t.index()),
            sum(old(self)@.subrange(0, t.index() as int)) <= idx,
            idx < sum(old(self)@.subrange(0, t.index() as int + 1)),
            final(self)@ == old(self)@.update(t.index() as int, (old(self)@[t.index() as int] - 1) as usize),
            final(self).spec_len() == old(self).spec_len() - 1,
    {
        let ghost v = self@;
        let total = self.len();
        let mut tile_idx: usize = 0;
        let mut count: usize = self.counts.count(Tile::from_index(0));
        proof {
            reveal_with_fuel(sum, 2);
            assert(v.subrange(0, 1).drop_last() =~= v.subrange(0, 0));
        }
        while count <= idx
            invariant
                tile_idx < 27,
                v == self@,
                v.len() == 27,
                idx < sum(v),
                sum(v) == total,
                count == sum(v.subrange(0, tile_idx as int + 1)),
                sum(v.subrange(0, tile_idx as int)) <= idx,
            decreases 27 - tile_idx,
        {
            if tile_idx == 26 {
                assert(v.subrange(0, 27) =~= v);
                assert(false);
            }
            tile_idx = tile_idx + 1;
            proof {
                assert(v.subrange(0, tile_idx as int + 1).drop_last() =~= v.subrange(0, tile_idx as int));
                lemma_sum_prefix_le(v, tile_idx as int + 1);
            }
            count = count + self.counts.count(Tile::from_index(tile_idx));
        }
        let tile = Tile::from_index(tile_idx);
        proof {
            assert(v.subrange(0, tile_idx as int + 1).drop_last() =~= v.subrange(0, tile_idx as int));
            lemma_sum_nonneg(v.subrange(0, tile_idx as int));
        }
        self.counts.remove_one(tile);
        tile
    }

    /// Draws a randomly selected tile from the bag. Returns [`None`] when
    /// the bag is empty.
    pub fn draw(&mut self) -> (r: Option<Tile>)
        ensures
            r is None <==> old(self).spec_len() == 0,
            r is None ==> final(self)@ == old(self)@,
            r matches Some(t) ==> {
                &&& t.index() < 27
                &&& t == Tile::spec_from_index(t.index())
                &&& old(self)@[t.index() as int] > 0
                &&& final(self)@ == old(self)@.update(t.index() as int, (old(self)@[t.index() as int] - 1) as usize)
                &&& final(self).spec_len() == old(self).spec_len() - 1
            },
    {
        let len = self.len();
        if len == 0 {
            None
        } else {
            let idx = random_below(len);
            let t = self.draw_at(idx);
            proof {
                let v = old(self)@;
                let k = t.index() as int;
                assert(v.subrange(0, k + 1).drop_last() =~= v.subrange(0, k));
            }
            Some(t)
        }
    }

    /// Draws `min(count, total, RACK_SIZE)` tiles from the bag:
    /// at most [`RACK_SIZE`] tiles, no more than the total number of
    /// tiles, and no more than `count` tiles.
    pub fn draw_many(&mut self, count: usize) -> (r: Vec<Tile>)
        ensures
            r@.len() == min(min(count as int, RACK_SIZE as int), old(self).spec_len()),
            forall|i: int| 0 <= i < 27 ==> #[trigger] final(self)@[i] + count_in(r@, i as nat) == old(self)@[i],
            forall|k: int| 0 <= k < r@.len() ==> (#[trigger] r@[k]).index() < 27,
            final(self).spec_len() == old(self).spec_len() - r@.len(),
    {
        let mut r: Vec<Tile> = Vec::new();
        let mut attempt: usize = 0;
        proof {
            lemma_sum_nonneg(self@);
        }
        while attempt < RACK_SIZE && r.len() < count
            invariant
                attempt <= RACK_SIZE,
                r@.len() <= attempt,
                r@.len() <= count,
                r@.len() == min(attempt as int, old(self).spec_len()),
                forall|i: int| 0 <= i < 27 ==> #[trigger] self@[i] + count_in(r@, i as nat) == old(self)@[i],
                forall|k: int| 0 <= k < r@.len() ==> (#[trigger] r@[k]).index() < 27,
                self.spec_len() == old(self).spec_len() - r@.len(),
            decreases RACK_SIZE - attempt,
        {
            let ghost before = r@;
            let ghost bag_before = self@;
            match self.draw() {
                Some(t) => {
                    r.push(t);
                    proof {
                        assert forall|i: int| 0 <= i < 27 implies #[trigger] self@[i] + count_in(r@, i as nat) == old(self)@[i] by {
                            lemma_count_in_push(before, t, i as nat);
                        }
                    }
                }
                None => {}
            }
            attempt = attempt + 1;
        }
        r
    }

    /// Adds up to [`RACK_SIZE`] of `tiles` back into the bag, returning
    /// the number of tiles that were added.
    pub fn add_tiles(&mut self, tiles: &[Tile]) -> (n: usize)
        requires
            old(self).spec_len() + RACK_SIZE <= usize::MAX,
        ensures
            n == min(tiles@.len() as int, RACK_SIZE as int),
            forall|i: int| 0 <= i < 27 ==> #[trigger] final(self)@[i] == old(self)@[i] + count_in(tiles@.subrange(0, n as int), i as nat),
            final(self).spec_len() == old(self).spec_len() + n,
    {
        let n: usize = if tiles.len() < RACK_SIZE { tiles.len() } else { RACK_SIZE };
        let taken = slice_prefix(tiles, n);
        self.counts.insert(taken.as_slice());
        n
    }
}

/// The first `n` elements of `tiles`.
fn slice_prefix(tiles: &[Tile], n: usize) -> (r: Vec<Tile>)
    requires
        n <= tiles@.len(),
    ensures
        r@ == tiles@.subrange(0, n as int),
{
    let mut r: Vec<Tile> = Vec::new();
    let mut i: usize = 0;
    while i < n
        invariant
            i <= n,
            n <= tiles@.len(),
            r@ == tiles@.subrange(0, i as int),
        decreases n - i,
    {
        r.push(tiles[i]);
        i = i + 1;
        assert(r@ =~= tiles@.subrange(0, i as int));
    }
    r
}

impl Default for LetterBag {
    fn default() -> (bag: LetterBag)
        ensures
            forall|i: int| 0 <= i < 27 ==> #[trigger] bag@[i] == initial_count_of(i as nat),
            bag.spec_len() == 100,
    {
        LetterBag::new()
    }
}

} // verus!
