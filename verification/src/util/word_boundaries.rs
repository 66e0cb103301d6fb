//! Iterating over the (start, end) pairs of the horizontal words of a
//! bitboard, with boundaries that can list their squares.
use crate::util::bitboard::{word_ends, BitBoard};
use crate::util::pos::Pos;
use crate::util::words::{pairs, WordBoundaries as Pairing};
use vstd::prelude::*;

verus! {

broadcast use crate::util::pos::group_pos;

/// Goes over the (start, end) pairs, inclusive, of the horizontal words of
/// two or more squares in a bitboard. Vertical words are found by first
/// swapping the rows and columns of the bitboard.
pub struct WordBoundaries(Pairing);

impl View for WordBoundaries {
    type V = Set<int>;

    /// The word ends not yet paired.
    closed spec fn view(&self) -> Set<int> {
        self.0@
    }
}

impl WordBoundaries {
    /// Creates the boundaries of the words of `occ`.
    pub fn new(occ: BitBoard) -> (w: WordBoundaries)
        ensures
            w@ == word_ends(occ@),
    {
        WordBoundaries(Pairing::new(occ))
    }

    /// Gets the next word, by its first and last squares.
    pub fn next(&mut self) -> (r: Option<WordBoundary>)
        ensures
            pairs(old(self)@).len() == 0 ==> r is None,
            pairs(old(self)@).len() > 0 ==> (r matches Some(b) && b@ == pairs(old(self)@)[0]
                && pairs(final(self)@) == pairs(old(self)@).drop_first()),
    {
        match self.0.next() {
            Some(b) => {
                let (s, e) = (b.start(), b.end());
                proof {
                    crate::util::words::lemma_pairs_order(old(self)@, 0, None);
                }
                Some(WordBoundary { start: s, end: e })
            },
            None => None,
        }
    }
}

/// The start and end of a specific word.
#[derive(Clone, Copy, Debug, PartialEq, Eq, Structural)]
pub struct WordBoundary {
    start: Pos,
    end: Pos,
}

impl View for WordBoundary {
    type V = (int, int);

    /// The first and last squares.
    closed spec fn view(&self) -> (int, int) {
        (self.start@, self.end@)
    }
}

impl WordBoundary {
    /// Creates a new boundary; `start` comes before `end`.
    pub fn new(start: Pos, end: Pos) -> (b: WordBoundary)
        requires
            start@ < end@,
        ensures
            b@ == (start@, end@),
    {
        WordBoundary { start, end }
    }

    /// The squares from `start` to `end`, inclusive.
    pub fn iter_range(&self) -> (r: Vec<Pos>)
        ensures
            r@.len() == if self@.0 <= self@.1 { self@.1 - self@.0 + 1 } else { 0 },
            forall|k: int| 0 <= k < r@.len() ==> (#[trigger] r@[k])@ == self@.0 + k,
    {
        let start = self.start.index();
        let end = self.end.index();
        let mut r: Vec<Pos> = Vec::new();
        if start > end {
            return r;
        }
        let mut i: usize = start;
        while i <= end
            invariant
                start <= i <= end + 1,
                end < 225,
                start == self@.0,
                end == self@.1,
                r@.len() == i - start,
                forall|k: int| 0 <= k < r@.len() ==> (#[trigger] r@[k])@ == start + k,
            decreases end + 1 - i,
        {
            r.push(Pos::from_usize(i));
            i = i + 1;
        }
        r
    }

    /// Gets the start position.
    pub fn start(&self) -> (p: Pos)
        ensures
            p@ == self@.0,
    {
        self.start
    }

    /// Gets the end position.
    pub fn end(&self) -> (p: Pos)
        ensures
            p@ == self@.1,
    {
        self.end
    }

    /// Checks whether `pos` lies within `start..=end`.
    pub fn contains(&self, pos: Pos) -> (r: bool)
        ensures
            r == (self@.0 <= pos@ <= self@.1),
    {
        self.start.index() <= pos.index() && pos.index() <= self.end.index()
    }
}

} // verus!
