//! A structure for keeping track of how many of each of the 27 tiles
//! are in a container.
use crate::game::tile::{score_of_index, Tile};
use vstd::prelude::*;

verus! {

/// The sum of a sequence of counts.
pub open spec fn sum(s: Seq<usize>) -> int
    decreases s.len(),
{
    if s.len() == 0 {
        0
    } else {
        sum(s.drop_last()) + s.last()
    }
}

/// The sum of the scores of the tiles that a sequence of counts stands
/// for, entry `i` counting the tile numbered `i`.
pub open spec fn score_sum(s: Seq<usize>) -> int
    decreases s.len(),
{
    if s.len() == 0 {
        0
    } else {
        score_sum(s.drop_last()) + score_of_index((s.len() - 1) as nat) * s.last()
    }
}

/// The number of tiles numbered `i` in `tiles`.
pub open spec fn count_in(tiles: Seq<Tile>, i: nat) -> nat
    decreases tiles.len(),
{
    if tiles.len() == 0 {
        0
    } else {
        count_in(tiles.drop_last(), i) + if tiles.last().index() == i { 1nat } else { 0nat }
    }
}

/// The tiles that a sequence of counts stands for, in order of tile
/// number, taking only the entries before `k`.
pub open spec fn expand(s: Seq<usize>, k: nat) -> Seq<Tile>
    decreases k,
{
    if k == 0 {
        Seq::empty()
    } else {
        expand(s, (k - 1) as nat) + Seq::new(
            s[k - 1] as nat,
            |j: int| Tile::spec_from_index((k - 1) as nat),
        )
    }
}

/// Replacing an entry changes the sum by the difference.
pub proof fn lemma_sum_update(s: Seq<usize>, i: int, v: usize)
    requires
        0 <= i < s.len(),
    ensures
        sum(s.update(i, v)) == sum(s) - s[i] + v,
    decreases s.len(),
{
    if i == s.len() - 1 {
        assert(s.update(i, v).drop_last() =~= s.drop_last());
    } else {
        lemma_sum_update(s.drop_last(), i, v);
        assert(s.update(i, v).drop_last() =~= s.drop_last().update(i, v));
    }
}

/// Every entry is at most the sum.
pub proof fn lemma_entry_le_sum(s: Seq<usize>, i: int)
    requires
        0 <= i < s.len(),
    ensures
        s[i] <= sum(s),
        sum(s) >= 0,
    decreases s.len(),
{
    lemma_sum_nonneg(s.drop_last());
    if i < s.len() - 1 {
        lemma_entry_le_sum(s.drop_last(), i);
    }
}

/// A sum of counts is never negative.
pub proof fn lemma_sum_nonneg(s: Seq<usize>)
    ensures
        sum(s) >= 0,
    decreases s.len(),
{
    if s.len() > 0 {
        lemma_sum_nonneg(s.drop_last());
    }
}

/// Sums of zero sequences are zero.
pub proof fn lemma_sum_zero(s: Seq<usize>)
    requires
        forall|i: int| 0 <= i < s.len() ==> s[i] == 0,
    ensures
        sum(s) == 0,
    decreases s.len(),
{
    if s.len() > 0 {
        lemma_sum_zero(s.drop_last());
    }
}

/// The sum is zero exactly when every entry is zero.
pub proof fn lemma_sum_zero_iff(s: Seq<usize>)
    ensures
        sum(s) == 0 <==> forall|i: int| 0 <= i < s.len() ==> s[i] == 0,
{
    if sum(s) == 0 {
        assert forall|i: int| 0 <= i < s.len() implies s[i] == 0 by {
            lemma_entry_le_sum(s, i);
        }
    } else {
        lemma_sum_nonneg(s);
        if forall|i: int| 0 <= i < s.len() ==> s[i] == 0 {
            lemma_sum_zero(s);
        }
    }
}

/// Scores are bounded by ten times the number of tiles.
pub proof fn lemma_score_sum_bound(s: Seq<usize>)
    ensures
        0 <= score_sum(s) <= 10 * sum(s),
    decreases s.len(),
{
    if s.len() > 0 {
        lemma_score_sum_bound(s.drop_last());
        let k = score_of_index((s.len() - 1) as nat);
        assert(k <= 10);
        assert(k * s.last() <= 10 * s.last()) by (nonlinear_arith)
            requires
                k <= 10,
        ;
        assert(0 <= k * s.last()) by (nonlinear_arith);
    }
}

/// Counting in a sequence with one more tile.
pub proof fn lemma_count_in_push(tiles: Seq<Tile>, t: Tile, i: nat)
    ensures
        count_in(tiles.push(t), i) == count_in(tiles, i) + if t.index() == i { 1nat } else { 0nat },
{
    assert(tiles.push(t).drop_last() =~= tiles);
}

/// Reusable structure used to store a quantity of each tile.
#[derive(Debug, Clone, Copy)]
pub struct TileCounts {
    counts: [usize; 27],
    len: usize,
}

impl TileCounts {
    #[verifier::type_invariant]
    spec fn inv(self) -> bool {
        self.len == sum(self.counts@)
    }

    /// The count of each tile, entry `i` for the tile numbered `i`.
    pub closed spec fn view(&self) -> Seq<usize> {
        self.counts@
    }

    /// The count of the tile numbered `i`.
    pub open spec fn count_of(&self, i: nat) -> nat {
        self@[i as int] as nat
    }

    /// The number of tiles in the counts.
    pub open spec fn spec_len(&self) -> int {
        sum(self@)
    }

    /// There is one count for each of the 27 tiles.
    pub broadcast proof fn lemma_view_len(tc: TileCounts)
        ensures
            #[trigger] tc@.len() == 27,
    {
    }

    /// Empty counts.
    pub fn new() -> (tc: TileCounts)
        ensures
            forall|i: int| 0 <= i < 27 ==> #[trigger] tc@[i] == 0,
            tc.spec_len() == 0,
    {
        let counts: [usize; 27] = [0; 27];
        proof {
            lemma_sum_zero(counts@);
        }
        TileCounts { counts, len: 0 }
    }

    /// Creates counts from an array with one count per tile.
    pub fn from_array(counts: [usize; 27]) -> (tc: TileCounts)
        requires
            sum(counts@) <= usize::MAX,
        ensures
            tc@ == counts@,
    {
        let mut len: usize = 0;
        let mut i: usize = 0;
        proof {
            lemma_sum_nonneg(counts@);
        }
        while i < 27
            invariant
                i <= 27,
                len == sum(counts@.subrange(0, i as int)),
                sum(counts@) <= usize::MAX,
            decreases 27 - i,
        {
            proof {
                assert(counts@.subrange(0, i as int + 1).drop_last() =~= counts@.subrange(0, i as int));
                lemma_sum_prefix_le(counts@, i as int + 1);
            }
            len = len + counts[i];
            i = i + 1;
        }
        assert(counts@.subrange(0, 27) =~= counts@);
        TileCounts { counts, len }
    }

    /// Gets the counts as an array with one count per tile.
    pub fn to_array(self) -> (a: [usize; 27])
        ensures
            a@ == self@,
    {
        self.counts
    }

    /// Gets the sum of the tile values.
    pub fn tile_sum(&self) -> (r: usize)
        requires
            10 * self.spec_len() <= usize::MAX,
        ensures
            r == score_sum(self@),
    {
        proof {
            use_type_invariant(self);
        }
        let mut total: usize = 0;
        let mut i: usize = 0;
        while i < 27
            invariant
                i <= 27,
                total == score_sum(self.counts@.subrange(0, i as int)),
                10 * sum(self.counts@) <= usize::MAX,
            decreases 27 - i,
        {
            proof {
                let s = self.counts@.subrange(0, i as int + 1);
                assert(s.drop_last() =~= self.counts@.subrange(0, i as int));
                lemma_score_sum_bound(s);
                lemma_sum_prefix_le(self.counts@, i as int + 1);
            }
            let t = Tile::from_index(i);
            total = total + t.score() * self.counts[i];
            i = i + 1;
        }
        assert(self.counts@.subrange(0, 27) =~= self.counts@);
        total
    }

    /// The number of tiles in `self`.
    pub fn len(&self) -> (r: usize)
        ensures
            r == self.spec_len(),
    {
        proof {
            use_type_invariant(self);
        }
        self.len
    }

    /// Checks whether the counts are empty.
    pub fn is_empty(&self) -> (r: bool)
        ensures
            r == (self.spec_len() == 0),
            r == (forall|i: int| 0 <= i < 27 ==> #[trigger] self@[i] == 0),
    {
        proof {
            use_type_invariant(self);
            lemma_sum_zero_iff(self.counts@);
            assert(self@ == self.counts@);
        }
        self.len == 0
    }

    /// Gets the count for a specific tile.
    pub fn count(&self, tile: Tile) -> (r: usize)
        ensures
            r == self.count_of(tile.index()),
            r <= self.spec_len(),
    {
        proof {
            use_type_invariant(self);
        }
        let i = tile.to_index();
        proof {
            lemma_entry_le_sum(self.counts@, i as int);
        }
        self.counts[i]
    }

    /// Checks whether there are any of a tile.
    pub fn any(&self, tile: Tile) -> (r: bool)
        ensures
            r == (self.count_of(tile.index()) > 0),
    {
        self.count(tile) > 0
    }

    /// Insert a single tile.
    pub fn insert_one(&mut self, tile: Tile)
        requires
            old(self).spec_len() < usize::MAX,
        ensures
            final(self)@ == old(self)@.update(
                tile.index() as int,
                (old(self)@[tile.index() as int] + 1) as usize,
            ),
            final(self).spec_len() == old(self).spec_len() + 1,
    {
        proof {
            use_type_invariant(&*self);
        }
        let i = tile.to_index();
        proof {
            lemma_entry_le_sum(self.counts@, i as int);
            lemma_sum_update(self.counts@, i as int, (self.counts@[i as int] + 1) as usize);
        }
        let mut counts = self.counts;
        counts[i] = counts[i] + 1;
        *self = TileCounts { counts, len: self.len + 1 };
    }

    /// Remove a single tile.
    pub fn remove_one(&mut self, tile: Tile)
        requires
            old(self).count_of(tile.index()) > 0,
        ensures
            final(self)@ == old(self)@.update(
                tile.index() as int,
                (old(self)@[tile.index() as int] - 1) as usize,
            ),
            final(self).spec_len() == old(self).spec_len() - 1,
    {
        proof {
            use_type_invariant(&*self);
        }
        let i = tile.to_index();
        proof {
            lemma_entry_le_sum(self.counts@, i as int);
            lemma_sum_update(self.counts@, i as int, (self.counts@[i as int] - 1) as usize);
        }
        let mut counts = self.counts;
        counts[i] = counts[i] - 1;
        *self = TileCounts { counts, len: self.len - 1 };
    }

    /// The tiles in `self`, in order of tile number.
    pub fn iter(&self) -> (r: Vec<Tile>)
        ensures
            r@ == expand(self@, 27),
    {
        let mut v: Vec<Tile> = Vec::new();
        let mut i: usize = 0;
        while i < 27
            invariant
                i <= 27,
                v@ == expand(self.counts@, i as nat),
            decreases 27 - i,
        {
            let t = Tile::from_index(i);
            let c = self.counts[i];
            let ghost before = v@;
            let mut j: usize = 0;
            while j < c
                invariant
                    j <= c,
                    c == self.counts@[i as int],
                    i < 27,
                    t == Tile::spec_from_index(i as nat),
                    v@ == before + Seq::new(j as nat, |k: int| Tile::spec_from_index(i as nat)),
                decreases c - j,
            {
                v.push(t);
                j = j + 1;
                assert(v@ =~= before + Seq::new(j as nat, |k: int| Tile::spec_from_index(i as nat)));
            }
            i = i + 1;
            assert(v@ =~= expand(self.counts@, i as nat));
        }
        v
    }

    /// The distinct tiles in `self`, in order of tile number.
    pub fn iter_unique(&self) -> (r: Vec<Tile>)
        ensures
            forall|t: Tile| r@.contains(t) <==> (t.index() < 27 && self.count_of(t.index()) > 0
                && t == Tile::spec_from_index(t.index())),
            forall|a: int, b: int| 0 <= a < b < r@.len() ==> r@[a].index() < r@[b].index(),
    {
        let mut v: Vec<Tile> = Vec::new();
        let mut i: usize = 0;
        while i < 27
            invariant
                i <= 27,
                forall|t: Tile| v@.contains(t) <==> (t.index() < i && self.counts@[t.index() as int] > 0
                    && t == Tile::spec_from_index(t.index())),
                forall|a: int, b: int| 0 <= a < b < v@.len() ==> v@[a].index() < v@[b].index(),
                forall|a: int| 0 <= a < v@.len() ==> v@[a].index() < i,
            decreases 27 - i,
        {
            if self.counts[i] > 0 {
                let t = Tile::from_index(i);
                let ghost before = v@;
                v.push(t);
                assert forall|u: Tile| v@.contains(u) <==> (u.index() < i + 1 && self.counts@[u.index() as int] > 0
                    && u == Tile::spec_from_index(u.index())) by {
                    if v@.contains(u) {
                        let k = choose|k: int| 0 <= k < v@.len() && v@[k] == u;
                        if k < before.len() {
                            assert(before.contains(u));
                        }
                    }
                    if u.index() < i + 1 && self.counts@[u.index() as int] > 0 && u == Tile::spec_from_index(u.index()) {
                        if u.index() < i {
                            assert(before.contains(u));
                            let k = choose|k: int| 0 <= k < before.len() && before[k] == u;
                            assert(v@[k] == u);
                        } else {
                            assert(v@[before.len() as int] == u);
                        }
                    }
                }
            } else {
                assert forall|u: Tile| v@.contains(u) <==> (u.index() < i + 1 && self.counts@[u.index() as int] > 0
                    && u == Tile::spec_from_index(u.index())) by {
                }
            }
            i = i + 1;
        }
        v
    }

    /// Checks whether all of `tiles` are contained within the counts.
    pub fn contains(&self, tiles: &[Tile]) -> (r: bool)
        ensures
            r == (forall|i: nat| i < 27 ==> #[trigger] count_in(tiles@, i) <= self.count_of(i)),
    {
        let counts = Self::counts(tiles);
        let mut i: usize = 0;
        while i < 27
            invariant
                i <= 27,
                forall|k: int| 0 <= k < 27 ==> #[trigger] counts@[k] == count_in(tiles@, k as nat),
                forall|k: nat| k < i ==> #[trigger] count_in(tiles@, k) <= self.count_of(k),
            decreases 27 - i,
        {
            if counts[i] > self.counts[i] {
                assert(count_in(tiles@, i as nat) > self.count_of(i as nat));
                return false;
            }
            i = i + 1;
        }
        true
    }

    /// Removes `tiles` from `self`; `self` must hold all of them.
    pub fn remove(&mut self, tiles: &[Tile])
        requires
            forall|i: nat| i < 27 ==> #[trigger] count_in(tiles@, i) <= old(self).count_of(i),
        ensures
            forall|i: int| 0 <= i < 27 ==> #[trigger] final(self)@[i] == old(self)@[i] - count_in(tiles@, i as nat),
            final(self).spec_len() == old(self).spec_len() - tiles@.len(),
    {
        proof {
            use_type_invariant(&*self);
        }
        let counts = Self::counts(tiles);
        let ghost orig = self.counts@;
        let mut res = self.counts;
        let mut i: usize = 0;
        while i < 27
            invariant
                i <= 27,
                orig.len() == 27,
                forall|k: int| 0 <= k < 27 ==> #[trigger] counts@[k] == count_in(tiles@, k as nat),
                forall|k: nat| k < 27 ==> #[trigger] count_in(tiles@, k) <= orig[k as int],
                forall|k: int| 0 <= k < i ==> #[trigger] res@[k] == orig[k] - counts@[k],
                forall|k: int| i <= k < 27 ==> #[trigger] res@[k] == orig[k],
                sum(res@) == sum(orig) - sum(counts@.subrange(0, i as int)),
            decreases 27 - i,
        {
            proof {
                assert(count_in(tiles@, i as nat) <= orig[i as int]);
                lemma_sum_update(res@, i as int, (orig[i as int] - counts@[i as int]) as usize);
                assert(counts@.subrange(0, i as int + 1).drop_last() =~= counts@.subrange(0, i as int));
            }
            res[i] = res[i] - counts[i];
            i = i + 1;
        }
        proof {
            assert(counts@.subrange(0, 27) =~= counts@);
            lemma_sum_nonneg(res@);
        }
        *self = TileCounts { counts: res, len: self.len - tiles.len() };
    }

    /// Adds `tiles` into `self`.
    pub fn insert(&mut self, tiles: &[Tile])
        requires
            old(self).spec_len() + tiles@.len() <= usize::MAX,
        ensures
            forall|i: int| 0 <= i < 27 ==> #[trigger] final(self)@[i] == old(self)@[i] + count_in(tiles@, i as nat),
            final(self).spec_len() == old(self).spec_len() + tiles@.len(),
    {
        proof {
            use_type_invariant(&*self);
        }
        let counts = Self::counts(tiles);
        let ghost orig = self.counts@;
        let mut res = self.counts;
        let mut i: usize = 0;
        while i < 27
            invariant
                i <= 27,
                orig.len() == 27,
                forall|k: int| 0 <= k < 27 ==> #[trigger] counts@[k] == count_in(tiles@, k as nat),
                sum(counts@) == tiles@.len(),
                sum(orig) + tiles@.len() <= usize::MAX,
                forall|k: int| 0 <= k < i ==> #[trigger] res@[k] == orig[k] + counts@[k],
                forall|k: int| i <= k < 27 ==> #[trigger] res@[k] == orig[k],
                sum(res@) == sum(orig) + sum(counts@.subrange(0, i as int)),
            decreases 27 - i,
        {
            proof {
                lemma_entry_le_sum(orig, i as int);
                lemma_entry_le_sum(counts@, i as int);
                lemma_sum_prefix_le(counts@, i as int);
                lemma_sum_update(res@, i as int, (orig[i as int] + counts@[i as int]) as usize);
                assert(counts@.subrange(0, i as int + 1).drop_last() =~= counts@.subrange(0, i as int));
            }
            res[i] = res[i] + counts[i];
            i = i + 1;
        }
        proof {
            assert(counts@.subrange(0, 27) =~= counts@);
        }
        *self = TileCounts { counts: res, len: self.len + tiles.len() };
    }

    /// The number of each tile in `tiles`, with the total.
    fn counts(tiles: &[Tile]) -> (r: [usize; 27])
        ensures
            forall|k: int| 0 <= k < 27 ==> #[trigger] r@[k] == count_in(tiles@, k as nat),
            sum(r@) == tiles@.len(),
    {
        let mut counts: [usize; 27] = [0; 27];
        let mut j: usize = 0;
        proof {
            lemma_sum_zero(counts@);
        }
        while j < tiles.len()
            invariant
                j <= tiles@.len(),
                forall|k: int| 0 <= k < 27 ==> #[trigger] counts@[k] == count_in(tiles@.subrange(0, j as int), k as nat),
                sum(counts@) == j,
            decreases tiles@.len() - j,
        {
            let idx = tiles[j].to_index();
            proof {
                lemma_entry_le_sum(counts@, idx as int);
                lemma_sum_update(counts@, idx as int, (counts@[idx as int] + 1) as usize);
                assert(tiles@.subrange(0, j as int + 1) =~= tiles@.subrange(0, j as int).push(tiles@[j as int]));
                assert forall|k: int| 0 <= k < 27 implies #[trigger] count_in(tiles@.subrange(0, j as int + 1), k as nat)
                    == count_in(tiles@.subrange(0, j as int), k as nat) + if tiles@[j as int].index() == k { 1nat } else { 0nat } by {
                    lemma_count_in_push(tiles@.subrange(0, j as int), tiles@[j as int], k as nat);
                }
            }
            counts[idx] = counts[idx] + 1;
            j = j + 1;
        }
        assert(tiles@.subrange(0, tiles@.len() as int) =~= tiles@);
        counts
    }

    /// Creates counts holding `tiles`.
    pub fn from_tiles(tiles: &[Tile]) -> (tc: TileCounts)
        ensures
            forall|i: int| 0 <= i < 27 ==> #[trigger] tc@[i] == count_in(tiles@, i as nat),
            tc.spec_len() == tiles@.len(),
    {
        let counts = Self::counts(tiles);
        TileCounts { counts, len: tiles.len() }
    }
}

/// The sum of a prefix is at most the sum of the whole.
pub proof fn lemma_sum_prefix_le(s: Seq<usize>, k: int)
    requires
        0 <= k <= s.len(),
    ensures
        0 <= sum(s.subrange(0, k)) <= sum(s),
    decreases s.len() - k,
{
    lemma_sum_nonneg(s.subrange(0, k));
    if k < s.len() {
        lemma_sum_prefix_le(s, k + 1);
        assert(s.subrange(0, k + 1).drop_last() =~= s.subrange(0, k));
    } else {
        assert(s.subrange(0, k) =~= s);
    }
}

impl Default for TileCounts {
    fn default() -> (tc: TileCounts)
        ensures
            forall|i: int| 0 <= i < 27 ==> #[trigger] tc@[i] == 0,
            tc.spec_len() == 0,
    {
        TileCounts::new()
    }
}

/// Facts about tile counts.
pub broadcast group group_tile_counts {
    TileCounts::lemma_view_len,
}

} // verus!
