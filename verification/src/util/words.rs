//! Structures for iterating over the words in a bitboard.
use crate::game::tile::Tile;
use crate::util::bitboard::{has_left, has_right, word_ends, BitBoard, Bits};
use crate::util::grid::Grid;
use crate::util::pos::Pos;
use vstd::prelude::*;
use vstd::set_lib::{lemma_int_range, lemma_len_subset, set_int_range};

verus! {

broadcast use crate::util::pos::group_pos, crate::util::bitboard::group_bitboard;

/// Pairs up the squares of `s` at or after `i` in increasing order, the
/// first of a pair being `open` when it is already known. A last square
/// without a partner is dropped.
pub open spec fn pairs_scan(s: Set<int>, i: int, open: Option<int>) -> Seq<(int, int)>
    decreases 225 - i,
{
    if i >= 225 || i < 0 {
        Seq::empty()
    } else if s.contains(i) {
        match open {
            None => pairs_scan(s, i + 1, Some(i)),
            Some(o) => seq![(o, i)] + pairs_scan(s, i + 1, None),
        }
    } else {
        pairs_scan(s, i + 1, open)
    }
}

/// The squares of `s` paired up in increasing order: the first with the
/// second, the third with the fourth, and so on.
pub open spec fn pairs(s: Set<int>) -> Seq<(int, int)> {
    pairs_scan(s, 0, None)
}

/// Whether some square of `r` lies within `start..=end`.
pub open spec fn meets(p: (int, int), r: Set<int>) -> bool {
    exists|x: int| r.contains(x) && p.0 <= x <= p.1
}

/// The pairs of `ps` that some square of `r` lies within, in order.
pub open spec fn hits(ps: Seq<(int, int)>, r: Set<int>) -> Seq<(int, int)>
    decreases ps.len(),
{
    if ps.len() == 0 {
        Seq::empty()
    } else if meets(ps[0], r) {
        seq![ps[0]] + hits(ps.drop_first(), r)
    } else {
        hits(ps.drop_first(), r)
    }
}

/// The squares from `c` to `e` inclusive, or just `c` when `c >= e`.
pub open spec fn range_from(c: int, e: int) -> Seq<int>
    decreases e - c,
{
    if c >= e {
        seq![c]
    } else {
        seq![c] + range_from(c + 1, e)
    }
}

/// Skipping positions that hold no square of `s` does not change the pairing.
pub proof fn lemma_pairs_skip(s: Set<int>, i: int, j: int, o: Option<int>)
    requires
        0 <= i <= j <= 225,
        forall|x: int| i <= x < j ==> !s.contains(x),
    ensures
        pairs_scan(s, i, o) == pairs_scan(s, j, o),
    decreases j - i,
{
    if i < j {
        lemma_pairs_skip(s, i + 1, j, o);
    }
}

/// The pairing only depends on the squares at or after the start.
pub proof fn lemma_pairs_agree(s: Set<int>, t: Set<int>, i: int, o: Option<int>)
    requires
        0 <= i <= 225,
        forall|x: int| i <= x < 225 ==> (s.contains(x) <==> t.contains(x)),
    ensures
        pairs_scan(s, i, o) == pairs_scan(t, i, o),
    decreases 225 - i,
{
    if i < 225 {
        lemma_pairs_agree(s, t, i + 1, None);
        lemma_pairs_agree(s, t, i + 1, Some(i));
        lemma_pairs_agree(s, t, i + 1, o);
    }
}

/// Pairs start at or after the scan position (or at the open square),
/// and end after they start and at or after the scan position.
pub proof fn lemma_pairs_order(s: Set<int>, i: int, o: Option<int>)
    requires
        0 <= i,
        o matches Some(v) ==> v < i,
    ensures
        forall|k: int| 0 <= k < pairs_scan(s, i, o).len() ==> {
            let p = #[trigger] pairs_scan(s, i, o)[k];
            &&& p.0 < p.1
            &&& i <= p.1
            &&& (p.0 >= i || o == Some(p.0))
            &&& (k > 0 ==> p.0 >= i)
            &&& (o is None ==> p.0 >= i)
        },
        forall|k: int, l: int| 0 <= k < l < pairs_scan(s, i, o).len() ==>
            (#[trigger] pairs_scan(s, i, o)[k]).1 < (#[trigger] pairs_scan(s, i, o)[l]).0,
    decreases 225 - i,
{
    if i < 225 {
        if s.contains(i) {
            match o {
                None => {
                    lemma_pairs_order(s, i + 1, Some(i));
                    assert(pairs_scan(s, i, o) == pairs_scan(s, i + 1, Some(i)));
                },
                Some(v) => {
                    lemma_pairs_order(s, i + 1, None);
                    let rest = pairs_scan(s, i + 1, None);
                    let all = pairs_scan(s, i, o);
                    assert(all == seq![(v, i)] + rest);
                    assert forall|k: int| 0 < k < all.len() implies #[trigger] all[k] == rest[k - 1] by {}
                    assert(all[0] == (v, i));
                    assert forall|k: int, l: int| 0 <= k < l < all.len() implies (#[trigger] all[k]).1 < (#[trigger] all[l]).0 by {
                        if k > 0 {
                            assert(all[k] == rest[k - 1]);
                        }
                        assert(all[l] == rest[l - 1]);
                    }
                },
            }
        } else {
            lemma_pairs_order(s, i + 1, o);
            assert(pairs_scan(s, i, o) == pairs_scan(s, i + 1, o));
        }
    }
}

/// Ordered, non-overlapping ranges each holding a square of `r` are no
/// more numerous than `r`.
pub proof fn lemma_hits_len(ps: Seq<(int, int)>, r: Set<int>)
    requires
        r.finite(),
        forall|k: int, l: int| 0 <= k < l < ps.len() ==> (#[trigger] ps[k]).1 < (#[trigger] ps[l]).0,
    ensures
        hits(ps, r).len() <= r.len(),
    decreases ps.len(),
{
    if ps.len() > 0 {
        let rest = ps.drop_first();
        assert forall|k: int, l: int| 0 <= k < l < rest.len() implies (#[trigger] rest[k]).1 < (#[trigger] rest[l]).0 by {
            assert(rest[k] == ps[k + 1] && rest[l] == ps[l + 1]);
        }
        if meets(ps[0], r) {
            let x = choose|x: int| r.contains(x) && ps[0].0 <= x <= ps[0].1;
            let a = ps[0].1 + 1;
            assert forall|k: int| 0 <= k < rest.len() implies (#[trigger] rest[k]).0 >= a by {
                assert(rest[k] == ps[k + 1]);
            }
            lemma_hits_restrict(rest, r, a);
            lemma_hits_restrict(rest, r.remove(x), a);
            assert(r.filter(|y: int| y >= a) =~= r.remove(x).filter(|y: int| y >= a));
            lemma_hits_len(rest, r.remove(x));
        } else {
            lemma_hits_len(rest, r);
        }
    }
}

/// Every range kept is one of the ranges given.
pub proof fn lemma_hits_sub(ps: Seq<(int, int)>, r: Set<int>)
    ensures
        forall|k: int| 0 <= k < hits(ps, r).len() ==> exists|j: int| 0 <= j < ps.len() && ps[j] == #[trigger] hits(ps, r)[k],
    decreases ps.len(),
{
    if ps.len() > 0 {
        let rest = ps.drop_first();
        lemma_hits_sub(rest, r);
        let h = hits(ps, r);
        let hr = hits(rest, r);
        assert forall|k: int| 0 <= k < h.len() implies exists|j: int| 0 <= j < ps.len() && ps[j] == #[trigger] h[k] by {
            if meets(ps[0], r) {
                if k == 0 {
                    assert(ps[0] == h[0]);
                } else {
                    assert(h[k] == hr[k - 1]);
                    let j = choose|j: int| 0 <= j < rest.len() && rest[j] == hr[k - 1];
                    assert(ps[j + 1] == h[k]);
                }
            } else {
                assert(h[k] == hr[k]);
                let j = choose|j: int| 0 <= j < rest.len() && rest[j] == hr[k];
                assert(ps[j + 1] == h[k]);
            }
        }
    }
}

/// With no squares left the pairing is empty, and a single square has no
/// partner.
pub proof fn lemma_pairs_few(s: Set<int>, i: int)
    requires
        0 <= i <= 225,
        forall|x: int, y: int| i <= x < 225 && i <= y < 225 && s.contains(x) && s.contains(y) ==> x == y,
    ensures
        pairs_scan(s, i, None) == Seq::<(int, int)>::empty(),
    decreases 225 - i,
{
    if i < 225 {
        if s.contains(i) {
            lemma_pairs_skip(s, i + 1, 225, Some(i));
        } else {
            lemma_pairs_few(s, i + 1);
        }
    }
}

/// The first pair is made of the two smallest squares.
pub proof fn lemma_pairs_first(s: Set<int>, m1: int, m2: int)
    requires
        s.contains(m1),
        s.contains(m2),
        m1 < m2,
        forall|x: int| s.contains(x) ==> x == m1 || m2 <= x,
        forall|x: int| s.contains(x) ==> 0 <= x < 225,
    ensures
        pairs(s) == seq![(m1, m2)] + pairs(s.remove(m1).remove(m2)),
{
    let t = s.remove(m1).remove(m2);
    lemma_pairs_skip(s, 0, m1, None);
    lemma_pairs_skip(s, m1 + 1, m2, Some(m1));
    assert(pairs_scan(s, m1, None) == pairs_scan(s, m1 + 1, Some(m1)));
    assert(pairs_scan(s, m2, Some(m1)) == seq![(m1, m2)] + pairs_scan(s, m2 + 1, None));
    lemma_pairs_skip(t, 0, m2 + 1, None);
    lemma_pairs_agree(s, t, m2 + 1, None);
}

/// Pairs that all start at or after `a` meet the same squares of `r` as
/// of `r` restricted to squares at or after `a`.
pub proof fn lemma_hits_restrict(ps: Seq<(int, int)>, r: Set<int>, a: int)
    requires
        forall|k: int| 0 <= k < ps.len() ==> (#[trigger] ps[k]).0 >= a,
    ensures
        hits(ps, r) == hits(ps, r.filter(|x: int| x >= a)),
    decreases ps.len(),
{
    if ps.len() > 0 {
        let rr = r.filter(|x: int| x >= a);
        assert(meets(ps[0], r) == meets(ps[0], rr)) by {
            if meets(ps[0], r) {
                let x = choose|x: int| r.contains(x) && ps[0].0 <= x <= ps[0].1;
                assert(rr.contains(x));
            }
        }
        lemma_hits_restrict(ps.drop_first(), r, a);
    }
}

/// No pair meets an empty set.
pub proof fn lemma_hits_empty(ps: Seq<(int, int)>, r: Set<int>)
    requires
        r == Set::<int>::empty(),
    ensures
        hits(ps, r) == Seq::<(int, int)>::empty(),
    decreases ps.len(),
{
    if ps.len() > 0 {
        lemma_hits_empty(ps.drop_first(), r);
    }
}

/// The start and end of a specific word.
#[derive(Debug, PartialEq, Eq, Structural, Clone, Copy)]
pub struct WordBoundary {
    start: Pos,
    end: Pos,
}

impl View for WordBoundary {
    type V = (int, int);

    closed spec fn view(&self) -> (int, int) {
        (self.start@, self.end@)
    }
}

impl WordBoundary {
    /// Creates a boundary from `start` to `end`.
    pub fn new(start: Pos, end: Pos) -> (b: WordBoundary)
        ensures
            b@ == (start@, end@),
    {
        WordBoundary { start, end }
    }

    /// Gets the start position.
    pub fn start(&self) -> (p: Pos)
        ensures
            p@ == self@.0,
    {
        self.start
    }

    /// Gets the end position.
    pub fn end(&self) -> (p: Pos)
        ensures
            p@ == self@.1,
    {
        self.end
    }

    /// Tests whether a position is within the range `start..=end`.
    pub fn contains(&self, pos: Pos) -> (r: bool)
        ensures
            r == (self@.0 <= pos@ <= self@.1),
    {
        self.start.index() <= pos.index() && pos.index() <= self.end.index()
    }

    /// Iterates over the positions from `start` to `end` inclusive (only
    /// `start` when `start >= end`).
    pub fn into_iter(self) -> (it: WordBoundaryIter)
        ensures
            it@ == range_from(self@.0, self@.1),
    {
        WordBoundaryIter { curr: self.start, end: self.end, complete: false }
    }
}

/// Used to iterate over the positions in a [`WordBoundary`].
#[derive(Debug, Clone, Copy)]
pub struct WordBoundaryIter {
    curr: Pos,
    end: Pos,
    complete: bool,
}

impl View for WordBoundaryIter {
    type V = Seq<int>;

    closed spec fn view(&self) -> Seq<int> {
        if self.complete {
            Seq::empty()
        } else {
            range_from(self.curr@, self.end@)
        }
    }
}

/// Ranges hold every square from their start to their end.
pub proof fn lemma_range_from(c: int, e: int)
    ensures
        range_from(c, e).len() == if c >= e { 1 } else { e - c + 1 },
        forall|k: int| 0 <= k < range_from(c, e).len() ==> #[trigger] range_from(c, e)[k] == c + k,
    decreases e - c,
{
    if c < e {
        lemma_range_from(c + 1, e);
    }
}

impl WordBoundaryIter {
    /// Visits the next position.
    pub fn next(&mut self) -> (r: Option<Pos>)
        ensures
            old(self)@.len() == 0 ==> r is None && final(self)@ == old(self)@,
            old(self)@.len() > 0 ==> (r matches Some(p) && p@ == old(self)@[0] && final(self)@
                == old(self)@.drop_first()),
    {
        if self.complete {
            None
        } else {
            let item = self.curr;
            let complete = self.curr.index() >= self.end.index();
            let curr = self.curr.next();
            proof {
                if !complete {
                    assert(range_from(item@, self.end@).drop_first() =~= range_from(item@ + 1, self.end@));
                }
            }
            *self = WordBoundaryIter { curr, end: self.end, complete };
            Some(item)
        }
    }
}

/// Iterates over the (start, end) boundaries of the horizontal words
/// of two or more letters on a bitboard.
#[derive(Debug)]
pub struct WordBoundaries {
    word_boundaries: Bits,
}

impl View for WordBoundaries {
    type V = Set<int>;

    closed spec fn view(&self) -> Set<int> {
        self.word_boundaries@
    }
}

impl WordBoundaries {
    /// The squares left to pair are squares of the board.
    pub broadcast proof fn lemma_bounded(w: WordBoundaries)
        ensures
            #![trigger w@]
            w@.subset_of(set_int_range(0, 225)),
            w@.finite(),
    {
        lemma_int_range(0, 225);
        lemma_len_subset(w@, set_int_range(0, 225));
    }

    /// Creates a new [`WordBoundaries`] iterator from a bitboard: the words
    /// are the horizontal runs of squares.
    pub fn new(occ: BitBoard) -> (w: WordBoundaries)
        ensures
            w@ == word_ends(occ@),
    {
        WordBoundaries { word_boundaries: Bits::from_board(occ.words_h()) }
    }

    /// Gets the next pair of squares, in increasing order.
    pub fn next(&mut self) -> (r: Option<WordBoundary>)
        ensures
            pairs(old(self)@).len() == 0 ==> r is None,
            pairs(old(self)@).len() > 0 ==> (r matches Some(b) && b@ == pairs(old(self)@)[0]
                && pairs(final(self)@) == pairs(old(self)@).drop_first()),
            r matches Some(b) ==> final(self)@ == old(self)@.remove(b@.0).remove(b@.1)
                && old(self)@.contains(b@.0) && old(self)@.contains(b@.1) && b@.0 != b@.1,
    {
        let ghost s = self@;
        proof {
            WordBoundaries::lemma_bounded(*self);
        }
        let first = self.word_boundaries.next();
        match first {
            None => {
                proof {
                    lemma_pairs_few(s, 0);
                }
                None
            },
            Some(start) => {
                let second = self.word_boundaries.next();
                match second {
                    None => {
                        proof {
                            assert forall|x: int, y: int| 0 <= x < 225 && 0 <= y < 225 && s.contains(x) && s.contains(y) implies x == y by {
                                if x != start@ {
                                    assert(s.remove(start@).contains(x));
                                }
                                if y != start@ {
                                    assert(s.remove(start@).contains(y));
                                }
                            }
                            lemma_pairs_few(s, 0);
                        }
                        None
                    },
                    Some(end) => {
                        proof {
                            assert forall|x: int| s.contains(x) implies x == start@ || end@ <= x by {
                                if x != start@ {
                                    assert(s.remove(start@).contains(x));
                                }
                            }
                            assert(s.remove(start@).contains(end@));
                            assert(end@ != start@);
                            lemma_pairs_first(s, start@, end@);
                        }
                        Some(WordBoundary::new(start, end))
                    },
                }
            },
        }
    }

    /// Gets the word boundaries that some square of `occ` lies within.
    pub fn intersecting(self, occ: BitBoard) -> (it: Intersecting)
        ensures
            it.wf(),
            it.spec_boundaries() == self@,
            it.spec_remaining() == occ@,
    {
        let mut new = Bits::from_board(occ);
        let curr = new.next();
        let it = Intersecting { word_boundaries: self, new, curr };
        proof {
            assert(it.spec_remaining() =~= occ@);
        }
        it
    }
}

/// Adapts the word boundaries to only yield those that some square of
/// a bitboard lies within.
#[derive(Debug)]
pub struct Intersecting {
    word_boundaries: WordBoundaries,
    new: Bits,
    curr: Option<Pos>,
}

impl Intersecting {
    /// The squares left to pair into boundaries.
    pub closed spec fn spec_boundaries(&self) -> Set<int> {
        self.word_boundaries@
    }

    /// The squares of the bitboard not yet passed.
    pub closed spec fn spec_remaining(&self) -> Set<int> {
        match self.curr {
            Some(c) => self.new@.insert(c@),
            None => self.new@,
        }
    }

    /// The current square comes before all those still to visit.
    pub closed spec fn wf(&self) -> bool {
        match self.curr {
            Some(c) => forall|q: int| #[trigger] self.new@.contains(q) ==> c@ < q,
            None => self.new@ == Set::<int>::empty(),
        }
    }

    /// The boundaries still to be yielded.
    pub open spec fn spec_hits(&self) -> Seq<(int, int)> {
        hits(pairs(self.spec_boundaries()), self.spec_remaining())
    }

    /// Gets the next boundary that some square of the bitboard lies within.
    pub fn next(&mut self) -> (r: Option<WordBoundary>)
        requires
            old(self).wf(),
        ensures
            final(self).wf(),
            old(self).spec_hits().len() == 0 ==> r is None,
            old(self).spec_hits().len() > 0 ==> (r matches Some(b) && b@ == old(self).spec_hits()[0]
                && final(self).spec_hits() == old(self).spec_hits().drop_first()),
    {
        let ghost target = self.spec_hits();
        loop
            invariant
                self.wf(),
                self.spec_hits() == target,
                target == old(self).spec_hits(),
            decreases self.spec_boundaries().len(),
        {
            let ghost s0 = self.spec_boundaries();
            let ghost r0 = self.spec_remaining();
            proof {
                WordBoundaries::lemma_bounded(self.word_boundaries);
                lemma_pairs_order(s0, 0, None);
            }
            let boundary = match self.word_boundaries.next() {
                Some(b) => b,
                None => {
                    return None;
                },
            };
            let ghost a = boundary@.0;
            let ghost bend = boundary@.1;
            let ghost s1 = self.spec_boundaries();
            let ghost tail = pairs(s1);
            proof {
                assert(pairs(s0) =~= seq![boundary@] + tail);
                assert forall|k: int| 0 <= k < tail.len() implies (#[trigger] tail[k]).0 >= a by {
                    assert(tail[k] == pairs(s0)[k + 1]);
                }
                assert(pairs(s0).drop_first() =~= tail);
                assert(pairs(s0)[0] == boundary@);
                assert(a < bend);
                lemma_hits_restrict(tail, r0, a);
                WordBoundaries::lemma_bounded(self.word_boundaries);
                assert(s1.len() < s0.len());
            }
            let start = boundary.start();
            loop
                invariant
                    self.wf(),
                    self.spec_boundaries() == s1,
                    self.spec_remaining().filter(|x: int| x >= a) == r0.filter(|x: int| x >= a),
                    start@ == a,
                ensures
                    self.wf(),
                    self.spec_boundaries() == s1,
                    self.spec_remaining().filter(|x: int| x >= a) == r0.filter(|x: int| x >= a),
                    self.curr is None || self.curr->0@ >= a,
                decreases self.spec_remaining().len(),
            {
                match self.curr {
                    None => {
                        break;
                    },
                    Some(c) => {
                        if c.index() >= start.index() {
                            break;
                        }
                        let ghost before = self.spec_remaining();
                        let ghost new_before = self.new@;
                        proof {
                            Bits::lemma_bounded(self.new);
                        }
                        self.curr = self.new.next();
                        proof {
                            assert(self.spec_remaining() =~= before.remove(c@));
                            assert(self.spec_remaining().filter(|x: int| x >= a) =~= before.filter(|x: int| x >= a));
                            assert(before.contains(c@));
                        }
                    },
                }
            }
            let ghost cur = self.spec_remaining();
            proof {
                assert(cur.filter(|x: int| x >= a) =~= cur) by {
                    match self.curr {
                        Some(c) => {
                            assert forall|x: int| cur.contains(x) implies x >= a by {
                                if x != c@ {
                                    assert(self.new@.contains(x));
                                }
                            }
                        },
                        None => {},
                    }
                }
                lemma_hits_restrict(tail, cur, a);
            }
            match self.curr {
                None => {
                    proof {
                        assert(r0.filter(|x: int| x >= a) =~= Set::<int>::empty());
                        lemma_hits_empty(tail, r0.filter(|x: int| x >= a));
                        if meets(boundary@, r0) {
                            let x = choose|x: int| r0.contains(x) && a <= x <= bend;
                            assert(r0.filter(|x: int| x >= a).contains(x));
                        }
                    }
                    return None;
                },
                Some(c) => {
                    if boundary.contains(c) {
                        proof {
                            assert(r0.filter(|x: int| x >= a).contains(c@));
                            assert(meets(boundary@, r0));
                        }
                        return Some(boundary);
                    }
                    proof {
                        if meets(boundary@, r0) {
                            let x = choose|x: int| r0.contains(x) && a <= x <= bend;
                            assert(r0.filter(|x: int| x >= a).contains(x));
                            assert(cur.contains(x));
                            if x != c@ {
                                assert(self.new@.contains(x));
                            }
                        }
                    }
                },
            }
        }
    }
}


/// The squares `o..=i` all lie in `occ` within one row, and `o` starts a
/// horizontal run: this is what an open pair means while scanning the
/// squares that end runs.
pub open spec fn open_run(occ: Set<int>, o: int, i: int) -> bool {
    &&& 0 <= o < i < 225
    &&& o / 15 == i / 15
    &&& forall|x: int| o <= x <= i ==> #[trigger] occ.contains(x)
    &&& !has_left(occ, o)
}

/// A maximal horizontal run of two or more squares of `occ`, from `p.0`
/// to `p.1` inclusive.
pub open spec fn is_run(occ: Set<int>, p: (int, int)) -> bool {
    &&& 0 <= p.0 < p.1 < 225
    &&& p.0 / 15 == p.1 / 15
    &&& forall|x: int| p.0 <= x <= p.1 ==> #[trigger] occ.contains(x)
    &&& !has_left(occ, p.0)
    &&& !has_right(occ, p.1)
}

proof fn lemma_runs_scan(occ: Set<int>, i: int, o: Option<int>)
    requires
        0 <= i <= 225,
        forall|x: int| occ.contains(x) ==> 0 <= x < 225,
        o is None ==> (i < 225 ==> !(occ.contains(i) && has_left(occ, i))),
        o matches Some(v) ==> open_run(occ, v, i),
    ensures
        forall|k: int| 0 <= k < pairs_scan(word_ends(occ), i, o).len() ==> is_run(
            occ,
            #[trigger] pairs_scan(word_ends(occ), i, o)[k],
        ),
    decreases 225 - i,
{
    let e = word_ends(occ);
    if i < 225 {
        if e.contains(i) {
            match o {
                None => {
                    assert(has_right(occ, i));
                    assert(open_run(occ, i, i + 1));
                    lemma_runs_scan(occ, i + 1, Some(i));
                    assert(pairs_scan(e, i, o) == pairs_scan(e, i + 1, Some(i)));
                },
                Some(v) => {
                    assert(has_left(occ, i));
                    assert(!has_right(occ, i));
                    lemma_runs_scan(occ, i + 1, None);
                    let rest = pairs_scan(e, i + 1, None);
                    let all = pairs_scan(e, i, o);
                    assert(all == seq![(v, i)] + rest);
                    assert forall|k: int| 0 <= k < all.len() implies is_run(occ, #[trigger] all[k]) by {
                        if k > 0 {
                            assert(all[k] == rest[k - 1]);
                        }
                    }
                },
            }
        } else {
            match o {
                None => {
                    if i + 1 < 225 && occ.contains(i + 1) && has_left(occ, i + 1) {
                        assert(has_right(occ, i));
                    }
                    lemma_runs_scan(occ, i + 1, None);
                },
                Some(v) => {
                    assert(has_left(occ, i));
                    assert(has_right(occ, i));
                    assert(open_run(occ, v, i + 1));
                    lemma_runs_scan(occ, i + 1, o);
                },
            }
            assert(pairs_scan(e, i, o) == pairs_scan(e, i + 1, o));
        }
    }
}

/// Every boundary found from the occupancy is a maximal horizontal run of
/// two or more squares.
pub proof fn lemma_pairs_are_runs(occ: Set<int>)
    requires
        forall|x: int| occ.contains(x) ==> 0 <= x < 225,
    ensures
        forall|k: int| 0 <= k < pairs(word_ends(occ)).len() ==> is_run(occ, #[trigger] pairs(word_ends(occ))[k]),
{
    lemma_runs_scan(occ, 0, None);
}

/// The tiles met along `ps` on the grid `g`, stopping at the first
/// empty square.
pub open spec fn word_items(g: Seq<Option<Tile>>, ps: Seq<int>) -> Seq<(int, Tile)>
    decreases ps.len(),
{
    if ps.len() == 0 {
        Seq::empty()
    } else {
        match g[ps[0]] {
            Some(t) => seq![(ps[0], t)] + word_items(g, ps.drop_first()),
            None => Seq::empty(),
        }
    }
}

/// The tiles along a run of occupied squares are the tiles of every square.
pub proof fn lemma_word_items_full(g: Seq<Option<Tile>>, ps: Seq<int>)
    requires
        forall|k: int| 0 <= k < ps.len() ==> 0 <= #[trigger] ps[k] < g.len() && g[ps[k]] is Some,
    ensures
        word_items(g, ps).len() == ps.len(),
        forall|k: int| 0 <= k < ps.len() ==> #[trigger] word_items(g, ps)[k] == (ps[k], g[ps[k]]->0),
    decreases ps.len(),
{
    if ps.len() > 0 {
        lemma_word_items_full(g, ps.drop_first());
        let rest = word_items(g, ps.drop_first());
        assert forall|k: int| 0 < k < ps.len() implies #[trigger] word_items(g, ps)[k] == (ps[k], g[ps[k]]->0) by {
            assert(word_items(g, ps)[k] == rest[k - 1]);
            assert(ps.drop_first()[k - 1] == ps[k]);
        }
    }
}

/// An iterator over the (position, tile) pairs of a word on a grid.
pub struct Word<'a> {
    grid: &'a Grid,
    boundary: WordBoundaryIter,
}

impl<'a> Word<'a> {
    /// The grid the word lies on.
    pub closed spec fn spec_grid(&self) -> Grid {
        *self.grid
    }

    /// The positions still to visit.
    pub closed spec fn spec_positions(&self) -> Seq<int> {
        self.boundary@
    }

    /// The (position, tile) pairs still to come.
    pub open spec fn spec_items(&self) -> Seq<(int, Tile)> {
        word_items(self.spec_grid()@, self.spec_positions())
    }

    /// The word over `boundary` on `grid`.
    pub fn new(grid: &'a Grid, boundary: WordBoundary) -> (w: Word<'a>)
        ensures
            w.spec_grid() == *grid,
            w.spec_positions() == range_from(boundary@.0, boundary@.1),
    {
        Word { grid, boundary: boundary.into_iter() }
    }

    /// Gets the next position and tile; stops at the first empty square.
    pub fn next(&mut self) -> (r: Option<(Pos, Tile)>)
        ensures
            final(self).spec_grid() == old(self).spec_grid(),
            old(self).spec_items().len() == 0 ==> r is None,
            old(self).spec_items().len() > 0 ==> (r matches Some(pt) && (pt.0@, pt.1)
                == old(self).spec_items()[0] && final(self).spec_items()
                == old(self).spec_items().drop_first()),
    {
        let ghost ps = self.boundary@;
        let pos = match self.boundary.next() {
            Some(p) => p,
            None => {
                return None;
            },
        };
        proof {
            crate::util::grid::Grid::lemma_grid(*self.grid);
            assert(ps.drop_first() == self.boundary@);
        }
        match self.grid.at(pos) {
            Some(t) => Some((pos, t)),
            None => None,
        }
    }

    /// The tiles of a word lie on consecutive squares.
    pub proof fn lemma_items_consecutive(&self)
        ensures
            forall|k: int| 0 <= k < self.spec_items().len() ==> #[trigger] self.spec_items()[k].0
                == self.spec_items()[0].0 + k,
    {
        let ps = self.spec_positions();
        if !self.boundary.complete {
            lemma_range_from(self.boundary.curr@, self.boundary.end@);
        }
        assert(forall|k: int| 0 <= k < ps.len() ==> #[trigger] ps[k] == ps[0] + k);
        lemma_word_items_prefix(self.spec_grid()@, ps);
    }
}

/// The tiles met along `ps` lie on the first squares of `ps`.
pub proof fn lemma_word_items_prefix(g: Seq<Option<Tile>>, ps: Seq<int>)
    ensures
        word_items(g, ps).len() <= ps.len(),
        forall|k: int| 0 <= k < word_items(g, ps).len() ==> (#[trigger] word_items(g, ps)[k]).0 == ps[k],
    decreases ps.len(),
{
    if ps.len() > 0 {
        lemma_word_items_prefix(g, ps.drop_first());
        if g[ps[0]] is Some {
            let rest = word_items(g, ps.drop_first());
            assert forall|k: int| 0 < k < word_items(g, ps).len() implies (#[trigger] word_items(g, ps)[k]).0 == ps[k] by {
                assert(word_items(g, ps)[k] == rest[k - 1]);
                assert(ps.drop_first()[k - 1] == ps[k]);
            }
        }
    }
}

/// Adapts intersecting word boundaries to the [`Word`]s on a grid.
pub struct Words<'a> {
    word_boundaries: Intersecting,
    grid: &'a Grid,
}

impl<'a> Words<'a> {
    /// The grid the words lie on.
    pub closed spec fn spec_grid(&self) -> Grid {
        *self.grid
    }

    /// The boundaries still to be yielded.
    pub closed spec fn spec_hits(&self) -> Seq<(int, int)> {
        self.word_boundaries.spec_hits()
    }

    /// The boundaries iterate consistently.
    pub closed spec fn wf(&self) -> bool {
        self.word_boundaries.wf()
    }

    /// The words of `grid` along the boundaries of `it`.
    pub fn new(it: Intersecting, grid: &'a Grid) -> (w: Words<'a>)
        requires
            it.wf(),
        ensures
            w.wf(),
            w.spec_grid() == *grid,
            w.spec_hits() == it.spec_hits(),
    {
        Words { word_boundaries: it, grid }
    }

    /// Gets the next word.
    pub fn next(&mut self) -> (r: Option<Word<'a>>)
        requires
            old(self).wf(),
        ensures
            final(self).wf(),
            final(self).spec_grid() == old(self).spec_grid(),
            old(self).spec_hits().len() == 0 ==> r is None,
            old(self).spec_hits().len() > 0 ==> (r matches Some(w) && w.spec_grid()
                == old(self).spec_grid() && w.spec_positions() == range_from(
                old(self).spec_hits()[0].0,
                old(self).spec_hits()[0].1,
            ) && final(self).spec_hits() == old(self).spec_hits().drop_first()),
    {
        match self.word_boundaries.next() {
            Some(b) => Some(Word::new(self.grid, b)),
            None => None,
        }
    }
}

impl BitBoard {
    /// Gets the boundaries of the horizontal words of two or more squares
    /// on the board.
    pub fn word_boundaries(self) -> (w: WordBoundaries)
        ensures
            w@ == word_ends(self@),
    {
        WordBoundaries::new(self)
    }
}

impl Intersecting {
    /// Gets the [`Word`]s of `grid` along the boundaries.
    pub fn words(self, grid: &Grid) -> (w: Words<'_>)
        requires
            self.wf(),
        ensures
            w.wf(),
            w.spec_grid() == *grid,
            w.spec_hits() == self.spec_hits(),
    {
        Words::new(self, grid)
    }
}

} // verus!
