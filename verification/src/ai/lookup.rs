//! Precalculates the scores of the perpendicular (vertical) words formed
//! by placing a single tile on each square.
use crate::game::tile::{Letter, Tile};
use crate::util::bitboard::{north_of, south_of, BitBoard};
use crate::util::fsm::{accepts_word, lemma_run_append, run, Fsm, StateId};
use crate::util::grid::Grid;
use crate::util::pos::{multipliers_at, Pos};
use crate::util::tile_counts::TileCounts;
use vstd::prelude::*;

verus! {

broadcast use crate::util::pos::group_pos, crate::util::bitboard::group_bitboard, crate::game::tile::group_letter;

/// The letter on square `p` of `g`, if a tile with a letter lies there.
pub open spec fn letter_at(g: Seq<Option<Tile>>, p: int) -> Option<Letter> {
    match g[p] {
        Some(t) => t.spec_letter(),
        None => None,
    }
}

/// The score of the tile on square `p` of `g`.
pub open spec fn score_at(g: Seq<Option<Tile>>, p: int) -> int {
    match g[p] {
        Some(t) => t.spec_score() as int,
        None => 0,
    }
}

/// The letters directly above row `r` of column `c`, top to bottom, up to
/// the first square without a letter.
pub open spec fn above(g: Seq<Option<Tile>>, r: int, c: int) -> Seq<Letter>
    decreases r,
{
    if r <= 0 {
        Seq::empty()
    } else {
        match letter_at(g, (r - 1) * 15 + c) {
            Some(l) => above(g, r - 1, c).push(l),
            None => Seq::empty(),
        }
    }
}

/// The total score of the tiles of [`above`].
pub open spec fn above_score(g: Seq<Option<Tile>>, r: int, c: int) -> int
    decreases r,
{
    if r <= 0 {
        0
    } else {
        match letter_at(g, (r - 1) * 15 + c) {
            Some(_) => above_score(g, r - 1, c) + score_at(g, (r - 1) * 15 + c),
            None => 0,
        }
    }
}

/// The letters directly below row `r` of column `c`, top to bottom, up to
/// the first square without a letter.
pub open spec fn below(g: Seq<Option<Tile>>, r: int, c: int) -> Seq<Letter>
    decreases 14 - r,
{
    if r >= 14 {
        Seq::empty()
    } else {
        match letter_at(g, (r + 1) * 15 + c) {
            Some(l) => seq![l] + below(g, r + 1, c),
            None => Seq::empty(),
        }
    }
}

/// The total score of the tiles of [`below`].
pub open spec fn below_score(g: Seq<Option<Tile>>, r: int, c: int) -> int
    decreases 14 - r,
{
    if r >= 14 {
        0
    } else {
        match letter_at(g, (r + 1) * 15 + c) {
            Some(_) => score_at(g, (r + 1) * 15 + c) + below_score(g, r + 1, c),
            None => 0,
        }
    }
}

/// The score of the vertical word formed by placing `t` on the empty
/// square `p`: the tiles above and below, with `t` times its letter
/// multiplier, all times the word multiplier of `p`; nothing when the word
/// is not accepted or `t` stands for no letter.
pub open spec fn vertical_score<F: Fsm>(f: &F, g: Seq<Option<Tile>>, p: int, t: Tile) -> Option<int> {
    let (r, c) = (p / 15, p % 15);
    match t.spec_letter() {
        None => None,
        Some(l) => if accepts_word(f, above(g, r, c).push(l) + below(g, r, c)) {
            let (tm, wm) = multipliers_at(p);
            Some((above_score(g, r, c) + tm * t.spec_score() + below_score(g, r, c)) * wm)
        } else {
            None
        },
    }
}

/// The tile listed under key `k`: the letters, then blanks standing for
/// each letter.
pub open spec fn tile_of_key(k: int) -> Tile {
    if k < 26 {
        Tile::Letter(Letter::with_index(k as nat))
    } else {
        Tile::Blank(Some(Letter::with_index((k - 26) as nat)))
    }
}

/// The key of a tile standing for a letter.
pub open spec fn key_of(t: Tile) -> Option<int> {
    match t {
        Tile::Letter(l) => Some(l.index() as int),
        Tile::Blank(Some(l)) => Some(26 + l.index() as int),
        Tile::Blank(None) => None,
    }
}

/// The squares directly above or below a tile, not themselves holding one.
pub open spec fn above_or_below_of(g: Seq<Option<Tile>>) -> Set<int> {
    let occ = Set::new(|i: int| 0 <= i < 225 && g[i] is Some);
    north_of(occ).union(south_of(occ)).difference(occ)
}

/// The listed score of tile `k` on square `p`: the score of the vertical
/// word it forms, for squares next to a tile vertically, tiles held in the
/// rack `counts`.
#[verifier::opaque]
pub open spec fn spec_entry<F: Fsm>(f: &F, g: Seq<Option<Tile>>, counts: Seq<usize>, p: int, k: int) -> Option<int> {
    let t = tile_of_key(k);
    if above_or_below_of(g).contains(p) && counts[t.index() as int] > 0 {
        vertical_score(f, g, p, t)
    } else {
        None
    }
}

/// Every column of letters, from its top down to each of its squares, is
/// a path of the machine.
pub open spec fn columns_traversable<F: Fsm>(f: &F, g: Seq<Option<Tile>>) -> bool {
    forall|p: int| 0 <= p < 225 && #[trigger] letter_at(g, p) is Some ==> run(
        f,
        f.spec_initial(),
        above(g, p / 15, p % 15).push(letter_at(g, p)->0),
    ) is Some
}

/// Vertical words can be considered separately. Since placement always
/// occurs in a single row, only one tile can be placed in each column.
/// [`Lookup`] stores, for each square, the tiles of the rack that can be
/// placed there and the score of the vertical word each forms.
#[derive(Debug)]
pub struct Lookup {
    above_or_below: BitBoard,
    lookup: Vec<[Option<usize>; 52]>,
}

impl Lookup {
    /// The squares next to a tile vertically.
    pub closed spec fn spec_above_or_below(&self) -> Set<int> {
        self.above_or_below@
    }

    /// The listed score of tile key `k` on square `p`.
    pub closed spec fn spec_table(&self, p: int, k: int) -> Option<usize> {
        self.lookup@[p][k]
    }

    /// The table lists a row for every square.
    pub closed spec fn wf(&self) -> bool {
        &&& self.lookup@.len() == 225
        &&& forall|p: int, k: int| 0 <= p < 225 && 0 <= k < 52 ==> bounded(#[trigger] self.lookup@[p]@[k])
    }
}

/// An optional score is at most 930, the most a single tile's vertical
/// word can score.
pub open spec fn bounded(o: Option<usize>) -> bool {
    match o {
        Some(v) => v <= 930,
        None => true,
    }
}

/// An optional count as an integer.
pub open spec fn opt_int(o: Option<usize>) -> Option<int> {
    match o {
        Some(v) => Some(v as int),
        None => None,
    }
}

/// Tiles are worth at most 10.
proof fn lemma_score_at(g: Seq<Option<Tile>>, p: int)
    ensures
        0 <= score_at(g, p) <= 10,
{
    match g[p] {
        Some(t) => {
            assert(t.spec_score() <= 10);
        },
        None => {},
    }
}

/// The tiles above a square are worth at most 10 each.
proof fn lemma_above_score(g: Seq<Option<Tile>>, r: int, c: int)
    ensures
        0 <= above_score(g, r, c) <= 10 * (if r > 0 { r } else { 0 }),
    decreases r,
{
    if r > 0 {
        lemma_above_score(g, r - 1, c);
        lemma_score_at(g, (r - 1) * 15 + c);
    }
}

/// The word formed by placing the tile `tile` (standing for a letter) on
/// the empty square `pos`: its score, if the machine accepts it. `next` is
/// where the letters above and the tile's letter lead.
fn vertical<F: Fsm>(grid: &Grid, fsm: &F, tile: Tile, score_above: usize, pos: Pos, next: StateId) -> (r: Option<usize>)
    requires
        fsm.spec_valid(next),
        tile.spec_letter() is Some,
        run(fsm, fsm.spec_initial(), above(grid@, pos@ / 15, pos@ % 15).push(tile.spec_letter()->0)) == Some(next),
        score_above == above_score(grid@, pos@ / 15, pos@ % 15),
    ensures
        opt_int(r) == vertical_score(fsm, grid@, pos@, tile),
        r matches Some(v) ==> v <= 930,
{
    let ghost g = grid@;
    let ghost l = tile.spec_letter()->0;
    let r0 = pos.row().index();
    let c = pos.col().index();
    proof {
        Grid::lemma_grid(*grid);
        lemma_above_score(g, r0 as int, c as int);
    }
    let (tm, wm) = pos.premium_multipliers();
    let ts = tile.score();
    proof {
        assert(tm * ts <= 30) by (nonlinear_arith)
            requires
                tm <= 3,
                ts <= 10,
        ;
    }
    let mut score = score_above + tm * ts;
    let mut state = next;
    let mut rr: usize = r0 + 1;
    let ghost mut pre: Seq<Letter> = Seq::empty();
    let ghost mut pre_score: int = 0;
    proof {
        assert(pre + below(g, r0 as int, c as int) =~= below(g, r0 as int, c as int));
    }
    while rr < 15
        invariant_except_break
            below(g, r0 as int, c as int) == pre + below(g, rr as int - 1, c as int),
            below_score(g, r0 as int, c as int) == pre_score + below_score(g, rr as int - 1, c as int),
        invariant
            r0 < 15,
            c < 15,
            r0 == pos@ / 15,
            c == pos@ % 15,
            l == tile.spec_letter()->0,
            run(fsm, fsm.spec_initial(), above(grid@, pos@ / 15, pos@ % 15).push(l)) == Some(next),
            r0 + 1 <= rr <= 15,
            g.len() == 225,
            g == grid@,
            fsm.spec_valid(state),
            run(fsm, next, pre) == Some(state),
            0 <= pre_score <= 10 * (rr - r0 - 1),
            score == score_above + tm * ts + pre_score,
            score_above <= 140,
            tm * ts <= 30,
        ensures
            below(g, r0 as int, c as int) == pre,
            below_score(g, r0 as int, c as int) == pre_score,
        decreases 15 - rr,
    {
        let q = Pos::from_usize(rr * 15 + c);
        let t = grid.at(q);
        let letter = match t {
            Some(Tile::Letter(l)) => l,
            Some(Tile::Blank(Some(l))) => l,
            _ => {
                proof {
                    assert(letter_at(g, rr * 15 + c) is None);
                    assert(below(g, rr as int - 1, c as int) =~= Seq::<Letter>::empty());
                    assert(pre + Seq::<Letter>::empty() =~= pre);
                }
                break;
            },
        };
        let tq = t.unwrap();
        let sq = tq.score();
        proof {
            assert(letter_at(g, rr * 15 + c) == Some(letter));
            assert(below(g, rr as int - 1, c as int) == seq![letter] + below(g, rr as int, c as int));
            assert(pre + below(g, rr as int - 1, c as int) =~= pre.push(letter) + below(g, rr as int, c as int));
            assert(pre.push(letter).drop_last() =~= pre);
        }
        state = match fsm.step(state, letter) {
            Some(s) => s,
            None => {
                proof {
                    let w = above(g, r0 as int, c as int).push(l);
                    assert(run(fsm, next, pre.push(letter)) is None);
                    lemma_run_append(fsm, next, pre.push(letter), below(g, rr as int, c as int));
                    lemma_run_append(fsm, fsm.spec_initial(), w, below(g, r0 as int, c as int));
                    assert(pos@ / 15 == r0 && pos@ % 15 == c);
                }
                return None;
            },
        };
        score = score + sq;
        proof {
            pre = pre.push(letter);
            pre_score = pre_score + sq;
        }
        rr = rr + 1;
    }
    proof {
        if rr == 15 {
            assert(below(g, 14, c as int) =~= Seq::<Letter>::empty());
            assert(pre + Seq::<Letter>::empty() =~= pre);
        }
        let w = above(g, r0 as int, c as int).push(l);
        lemma_run_append(fsm, fsm.spec_initial(), w, below(g, r0 as int, c as int));
        assert(pos@ / 15 == r0 && pos@ % 15 == c);
    }
    if fsm.is_terminal(state) {
        proof {
            assert(score * wm <= 930) by (nonlinear_arith)
                requires
                    score <= 310,
                    wm <= 3,
            ;
        }
        Some(score * wm)
    } else {
        None
    }
}

/// Some transition of `ts` is labelled with the letter of key `k`.
pub open spec fn label_in(ts: Seq<(Letter, StateId)>, k: int) -> bool {
    exists|m: int| 0 <= m < ts.len() && ts[m].0.index() == k % 26
}

/// The row of the table for the empty square `pos` next to a tile
/// vertically: for each tile of the rack that leads on from the letters
/// above, the score of the vertical word it forms, if accepted.
fn fill_square<F: Fsm>(grid: &Grid, fsm: &F, counts: &TileCounts, pos: Pos, state: StateId, score_above: usize) -> (r: [Option<usize>; 52])
    requires
        fsm.spec_valid(state),
        run(fsm, fsm.spec_initial(), above(grid@, pos@ / 15, pos@ % 15)) == Some(state),
        score_above == above_score(grid@, pos@ / 15, pos@ % 15),
        above_or_below_of(grid@).contains(pos@),
    ensures
        forall|k: int| 0 <= k < 52 ==> opt_int(#[trigger] r@[k]) == spec_entry(fsm, grid@, counts@, pos@, k),
        forall|k: int| 0 <= k < 52 ==> bounded(#[trigger] r@[k]),
{
    reveal(spec_entry);
    let ghost g = grid@;
    let ghost a = above(g, pos@ / 15, pos@ % 15);
    let mut row: [Option<usize>; 52] = vstd::array::array_fill_for_copy_types(None);
    proof {
        assert(row == vstd::array::spec_array_fill_for_copy_type::<Option<usize>, 52>(None));
        assert forall|k: int| 0 <= k < 52 implies row@[k] is None by {}
    }
    let ts = fsm.transitions(state);
    let mut j: usize = 0;
    while j < ts.len()
        invariant
            j <= ts@.len(),
            g == grid@,
            a == above(g, pos@ / 15, pos@ % 15),
            fsm.spec_valid(state),
            run(fsm, fsm.spec_initial(), a) == Some(state),
            score_above == above_score(g, pos@ / 15, pos@ % 15),
            above_or_below_of(g).contains(pos@),
            forall|m: int| 0 <= m < ts@.len() ==> fsm.spec_step(state, (#[trigger] ts@[m]).0) == Some(ts@[m].1)
                && fsm.spec_valid(ts@[m].1),
            forall|x: int, y: int| 0 <= x < y < ts@.len() ==> (#[trigger] ts@[x]).0 != (#[trigger] ts@[y]).0,
            forall|k: int| 0 <= k < 52 ==> opt_int(#[trigger] row@[k]) == if label_in(ts@.subrange(0, j as int), k) {
                spec_entry(fsm, g, counts@, pos@, k)
            } else {
                None
            },
            forall|k: int| 0 <= k < 52 ==> bounded(#[trigger] row@[k]),
        decreases ts@.len() - j,
    {
        let (l, next) = ts[j];
        let li = l.to_index();
        proof {
            assert(a.push(l).drop_last() =~= a);
            assert(run(fsm, fsm.spec_initial(), a.push(l)) == Some(next));
            assert(Letter::with_index(l.index()) == l);
        }
        let t1 = Tile::Letter(l);
        let v1 = if counts.any(t1) {
            vertical(grid, fsm, t1, score_above, pos, next)
        } else {
            None
        };
        let t2 = Tile::Blank(Some(l));
        let v2 = if counts.any(t2) {
            vertical(grid, fsm, t2, score_above, pos, next)
        } else {
            None
        };
        let ghost before = row;
        row[li] = v1;
        row[26 + li] = v2;
        proof {
            reveal(spec_entry);
            let pre = ts@.subrange(0, j as int);
            let pre1 = ts@.subrange(0, j as int + 1);
            assert(pre1[j as int] == ts@[j as int]);
            assert forall|k: int| 0 <= k < 52 implies opt_int(#[trigger] row@[k]) == if label_in(pre1, k) {
                spec_entry(fsm, g, counts@, pos@, k)
            } else {
                None
            } by {
                if k % 26 == li {
                    assert(label_in(pre1, k));
                    if k < 26 {
                        assert(k == li);
                        assert(tile_of_key(k) == t1);
                    } else {
                        assert(k == 26 + li);
                        assert(tile_of_key(k) == t2);
                    }
                } else {
                    assert(row@[k] == before@[k]);
                    if label_in(pre1, k) {
                        let m = choose|m: int| 0 <= m < pre1.len() && pre1[m].0.index() == k % 26;
                        assert(m != j);
                        assert(pre[m] == pre1[m]);
                    }
                    if label_in(pre, k) {
                        let m = choose|m: int| 0 <= m < pre.len() && pre[m].0.index() == k % 26;
                        assert(pre1[m] == pre[m]);
                    }
                }
            }
        }
        j = j + 1;
    }
    proof {
        reveal(spec_entry);
        assert(ts@.subrange(0, j as int) =~= ts@);
        assert forall|k: int| 0 <= k < 52 implies opt_int(#[trigger] row@[k]) == spec_entry(fsm, g, counts@, pos@, k) by {
            if !label_in(ts@, k) {
                let lk = Letter::with_index((k % 26) as nat);
                assert(lk.index() == k % 26);
                if fsm.spec_step(state, lk) is Some {
                    let m = choose|m: int| 0 <= m < ts@.len() && ts@[m].0 == lk;
                    assert(ts@[m].0.index() == k % 26);
                }
                assert(a.push(lk).drop_last() =~= a);
                assert(run(fsm, fsm.spec_initial(), a.push(lk)) is None);
                lemma_run_append(fsm, fsm.spec_initial(), a.push(lk), below(g, pos@ / 15, pos@ % 15));
                assert(tile_of_key(k).spec_letter() == Some(lk));
            }
        }
    }
    row
}

/// The table lists the entries of the squares scanned so far: the columns
/// before `c`, and the first `r` rows of column `c`; nothing elsewhere.
#[verifier::opaque]
spec fn table_done<F: Fsm>(tbl: Seq<[Option<usize>; 52]>, f: &F, g: Seq<Option<Tile>>, counts: Seq<usize>, c: int, r: int) -> bool {
    &&& tbl.len() == 225
    &&& forall|p: int, k: int| 0 <= p < 225 && 0 <= k < 52 ==> bounded(#[trigger] tbl[p]@[k])
    &&& forall|p: int, k: int| 0 <= p < 225 && 0 <= k < 52 ==> opt_int(#[trigger] tbl[p]@[k]) == if p % 15 < c || (p
        % 15 == c && p / 15 < r) {
        spec_entry(f, g, counts, p, k)
    } else {
        None
    }
}

proof fn lemma_table_step<F: Fsm>(
    old: Seq<[Option<usize>; 52]>,
    new: Seq<[Option<usize>; 52]>,
    f: &F,
    g: Seq<Option<Tile>>,
    counts: Seq<usize>,
    c: int,
    r: int,
)
    requires
        0 <= c < 15,
        0 <= r < 15,
        table_done(old, f, g, counts, c, r),
        new.len() == 225,
        forall|pp: int| 0 <= pp < 225 && pp != r * 15 + c ==> #[trigger] new[pp] == old[pp],
        forall|k: int| 0 <= k < 52 ==> opt_int(#[trigger] new[r * 15 + c]@[k]) == spec_entry(f, g, counts, r * 15 + c, k),
        forall|k: int| 0 <= k < 52 ==> bounded(#[trigger] new[r * 15 + c]@[k]),
    ensures
        table_done(new, f, g, counts, c, r + 1),
        forall|k: int| 0 <= k < 52 ==> (#[trigger] old[r * 15 + c]@[k]) is None,
{
    reveal(table_done);
    assert((r * 15 + c) % 15 == c && (r * 15 + c) / 15 == r);
    assert forall|k: int| 0 <= k < 52 implies (#[trigger] old[r * 15 + c]@[k]) is None by {
        assert(opt_int(old[r * 15 + c]@[k]) is None);
    }
    assert forall|pp: int, k: int| 0 <= pp < 225 && 0 <= k < 52 implies opt_int(#[trigger] new[pp]@[k]) == if pp % 15 < c
        || (pp % 15 == c && pp / 15 < r + 1) {
        spec_entry(f, g, counts, pp, k)
    } else {
        None
    } by {
        if pp != r * 15 + c {
            assert(new[pp] == old[pp]);
            if pp % 15 == c {
                assert(pp / 15 != r);
            }
        }
    }
    assert forall|pp: int, k: int| 0 <= pp < 225 && 0 <= k < 52 implies bounded(#[trigger] new[pp]@[k]) by {
        if pp != r * 15 + c {
            assert(new[pp] == old[pp]);
        }
    }
}

proof fn lemma_table_peek<F: Fsm>(tbl: Seq<[Option<usize>; 52]>, f: &F, g: Seq<Option<Tile>>, counts: Seq<usize>, c: int, r: int)
    requires
        0 <= c < 15,
        0 <= r < 15,
        table_done(tbl, f, g, counts, c, r),
    ensures
        forall|k: int| 0 <= k < 52 ==> (#[trigger] tbl[r * 15 + c]@[k]) is None,
{
    reveal(table_done);
    assert((r * 15 + c) % 15 == c && (r * 15 + c) / 15 == r);
    assert forall|k: int| 0 <= k < 52 implies (#[trigger] tbl[r * 15 + c]@[k]) is None by {
        assert(opt_int(tbl[r * 15 + c]@[k]) is None);
    }
}

proof fn lemma_table_column<F: Fsm>(tbl: Seq<[Option<usize>; 52]>, f: &F, g: Seq<Option<Tile>>, counts: Seq<usize>, c: int)
    requires
        table_done(tbl, f, g, counts, c, 15),
    ensures
        table_done(tbl, f, g, counts, c + 1, 0),
{
    reveal(table_done);
    assert forall|pp: int, k: int| 0 <= pp < 225 && 0 <= k < 52 implies opt_int(#[trigger] tbl[pp]@[k]) == if pp % 15 < c + 1
        || (pp % 15 == c + 1 && pp / 15 < 0) {
        spec_entry(f, g, counts, pp, k)
    } else {
        None
    } by {
        assert(pp / 15 < 15);
    }
}

/// An occupied square is not among the squares next to a tile.
proof fn lemma_occupied_not_aob(g: Seq<Option<Tile>>, p: int)
    requires
        0 <= p < 225,
        g[p] is Some,
    ensures
        !above_or_below_of(g).contains(p),
{
}

/// Squares not next to a tile vertically list nothing.
proof fn lemma_entry_none<F: Fsm>(f: &F, g: Seq<Option<Tile>>, counts: Seq<usize>, p: int)
    requires
        !above_or_below_of(g).contains(p),
    ensures
        forall|k: int| 0 <= k < 52 ==> #[trigger] spec_entry(f, g, counts, p, k) is None,
{
    reveal(spec_entry);
}

/// A letter on square `r` of column `c` extends the column word.
fn scan_letter<F: Fsm>(grid: &Grid, fsm: &F, r: usize, c: usize, state: StateId, score: usize, l: Letter, t: Tile) -> (next: (StateId, usize))
    requires
        r < 15,
        c < 15,
        grid@.len() == 225,
        grid@[r * 15 + c] == Some(t),
        t.spec_letter() == Some(l),
        columns_traversable(fsm, grid@),
        fsm.spec_valid(state),
        run(fsm, fsm.spec_initial(), above(grid@, r as int, c as int)) == Some(state),
        score == above_score(grid@, r as int, c as int),
    ensures
        fsm.spec_valid(next.0),
        run(fsm, fsm.spec_initial(), above(grid@, r as int + 1, c as int)) == Some(next.0),
        next.1 == above_score(grid@, r as int + 1, c as int),
{
    let ghost g = grid@;
    proof {
        lemma_above_score(g, r as int, c as int);
        let p = r * 15 + c;
        assert(p / 15 == r && p % 15 == c);
        assert(letter_at(g, p) == Some(l));
        assert(above(g, r as int + 1, c as int) == above(g, r as int, c as int).push(l));
        assert(above(g, r as int, c as int).push(l).drop_last() =~= above(g, r as int, c as int));
        assert(run(fsm, fsm.spec_initial(), above(g, p / 15, p % 15).push(letter_at(g, p)->0)) is Some);
    }
    let next = match fsm.step(state, l) {
        Some(s) => s,
        None => {
            proof {
                assert(false);
            }
            state
        },
    };
    (next, score + t.score())
}

/// A square without a letter on row `r` of column `c`: if next to a tile
/// vertically, it gets its row of the table.
fn scan_gap<F: Fsm>(
    table: &mut Vec<[Option<usize>; 52]>,
    grid: &Grid,
    fsm: &F,
    counts: &TileCounts,
    aob: &BitBoard,
    r: usize,
    c: usize,
    state: StateId,
    score: usize,
)
    requires
        r < 15,
        c < 15,
        grid@.len() == 225,
        letter_at(grid@, r * 15 + c) is None,
        aob@ == above_or_below_of(grid@),
        old(table)@.len() == 225,
        forall|k: int| 0 <= k < 52 ==> (#[trigger] old(table)@[r * 15 + c]@[k]) is None,
        fsm.spec_valid(state),
        run(fsm, fsm.spec_initial(), above(grid@, r as int, c as int)) == Some(state),
        score == above_score(grid@, r as int, c as int),
    ensures
        final(table)@.len() == 225,
        forall|pp: int| 0 <= pp < 225 && pp != r * 15 + c ==> #[trigger] final(table)@[pp] == old(table)@[pp],
        forall|k: int| 0 <= k < 52 ==> opt_int(#[trigger] final(table)@[r * 15 + c]@[k]) == spec_entry(
            fsm,
            grid@,
            counts@,
            r * 15 + c,
            k,
        ),
        forall|k: int| 0 <= k < 52 ==> bounded(#[trigger] final(table)@[r * 15 + c]@[k]),
{
    let p = Pos::from_usize(r * 15 + c);
    proof {
        assert(p@ == r * 15 + c);
        assert(p@ / 15 == r && p@ % 15 == c);
    }
    if aob.is_set(p) {
        let row = fill_square(grid, fsm, counts, p, state, score);
        table.set(p.index(), row);
    } else {
        proof {
            lemma_entry_none(fsm, grid@, counts@, p@);
        }
    }
}

/// Processes square `r` of column `c` in the scan of [`Lookup::new`]: a
/// letter extends the column word; a gap square next to a tile vertically
/// gets its row of the table, and restarts the column word.
#[verifier::spinoff_prover]
fn scan_square<F: Fsm>(
    table: &mut Vec<[Option<usize>; 52]>,
    grid: &Grid,
    fsm: &F,
    counts: &TileCounts,
    aob: &BitBoard,
    r: usize,
    c: usize,
    state: StateId,
    score: usize,
) -> (next: (StateId, usize))
    requires
        r < 15,
        c < 15,
        grid@.len() == 225,
        aob@ == above_or_below_of(grid@),
        columns_traversable(fsm, grid@),
        old(table)@.len() == 225,
        forall|k: int| 0 <= k < 52 ==> (#[trigger] old(table)@[r * 15 + c]@[k]) is None,
        fsm.spec_valid(state),
        run(fsm, fsm.spec_initial(), above(grid@, r as int, c as int)) == Some(state),
        score == above_score(grid@, r as int, c as int),
    ensures
        final(table)@.len() == 225,
        forall|pp: int| 0 <= pp < 225 && pp != r * 15 + c ==> #[trigger] final(table)@[pp] == old(table)@[pp],
        forall|k: int| 0 <= k < 52 ==> opt_int(#[trigger] final(table)@[r * 15 + c]@[k]) == spec_entry(
            fsm,
            grid@,
            counts@,
            r * 15 + c,
            k,
        ),
        forall|k: int| 0 <= k < 52 ==> bounded(#[trigger] final(table)@[r * 15 + c]@[k]),
        fsm.spec_valid(next.0),
        run(fsm, fsm.spec_initial(), above(grid@, r as int + 1, c as int)) == Some(next.0),
        next.1 == above_score(grid@, r as int + 1, c as int),
{
    let p = Pos::from_usize(r * 15 + c);
    proof {
        assert(p@ == r * 15 + c);
        lemma_above_score(grid@, r as int, c as int);
    }
    match grid.at(p) {
        Some(t) => match t.letter() {
            Ok(l) => {
                proof {
                    lemma_occupied_not_aob(grid@, p@);
                    lemma_entry_none(fsm, grid@, counts@, p@);
                }
                return scan_letter(grid, fsm, r, c, state, score, l, t);
            },
            Err(_) => {},
        },
        None => {},
    }
    scan_gap(table, grid, fsm, counts, aob, r, c, state, score);
    proof {
        assert(above(grid@, r as int + 1, c as int) =~= Seq::<Letter>::empty());
    }
    (fsm.initial_state(), 0)
}

impl Lookup {
    /// Creates the lookup for the words along the columns of `grid`, for
    /// the tiles in `counts`. Every column of letters must be a path of the
    /// machine from its top.
    pub fn new<F: Fsm>(fsm: &F, counts: &TileCounts, grid: &Grid) -> (l: Lookup)
        requires
            columns_traversable(fsm, grid@),
        ensures
            l.wf(),
            l.spec_above_or_below() == above_or_below_of(grid@),
            forall|p: int, k: int| 0 <= p < 225 && 0 <= k < 52 ==> opt_int(#[trigger] l.spec_table(p, k))
                == spec_entry(fsm, grid@, counts@, p, k),
    {
        let ghost g = grid@;
        let occ = *grid.occ();
        let aob = occ.above_or_below();
        proof {
            Grid::lemma_grid(*grid);
            BitBoard::lemma_view_bounded(occ);
            assert(occ@ =~= Set::new(|i: int| 0 <= i < 225 && g[i] is Some));
            assert(aob@ =~= above_or_below_of(g));
        }
        let mut table: Vec<[Option<usize>; 52]> = Vec::new();
        let mut q: usize = 0;
        while q < 225
            invariant
                q <= 225,
                table@.len() == q,
                forall|p: int, k: int| 0 <= p < q && 0 <= k < 52 ==> (#[trigger] table@[p]@[k]) is None,
            decreases 225 - q,
        {
            let row: [Option<usize>; 52] = vstd::array::array_fill_for_copy_types(None);
            proof {
                assert(row == vstd::array::spec_array_fill_for_copy_type::<Option<usize>, 52>(None));
            }
            table.push(row);
            q = q + 1;
        }
        proof {
            reveal(table_done);
        }
        let mut c: usize = 0;
        while c < 15
            invariant
                c <= 15,
                g == grid@,
                g.len() == 225,
                aob@ == above_or_below_of(g),
                columns_traversable(fsm, g),
                table@.len() == 225,
                table_done(table@, fsm, g, counts@, c as int, 0),
            decreases 15 - c,
        {
            let mut state = fsm.initial_state();
            let mut score: usize = 0;
            let mut r: usize = 0;
            while r < 15
                invariant
                    c < 15,
                    r <= 15,
                    g == grid@,
                    g.len() == 225,
                    aob@ == above_or_below_of(g),
                    columns_traversable(fsm, g),
                    table@.len() == 225,
                    fsm.spec_valid(state),
                    run(fsm, fsm.spec_initial(), above(g, r as int, c as int)) == Some(state),
                    score == above_score(g, r as int, c as int),
                    table_done(table@, fsm, g, counts@, c as int, r as int),
                decreases 15 - r,
            {
                let ghost old_table = table@;
                proof {
                    lemma_table_peek(table@, fsm, g, counts@, c as int, r as int);
                }
                let (st, sc) = scan_square(&mut table, grid, fsm, counts, &aob, r, c, state, score);
                state = st;
                score = sc;
                proof {
                    lemma_table_step(old_table, table@, fsm, g, counts@, c as int, r as int);
                }
                r = r + 1;
            }
            proof {
                lemma_table_column(table@, fsm, g, counts@, c as int);
            }
            c = c + 1;
        }
        proof {
            reveal(table_done);
        }
        Lookup { above_or_below: aob, lookup: table }
    }

    /// Finds the score of the vertical word formed when `tile` is placed on
    /// `pos`: nothing if the word is refused, zero if the square has no
    /// tile above or below it.
    pub fn score_tile(&self, pos: Pos, tile: Tile) -> (r: Option<usize>)
        requires
            self.wf(),
        ensures
            r == if self.spec_above_or_below().contains(pos@) {
                match key_of(tile) {
                    Some(k) => self.spec_table(pos@, k),
                    None => None,
                }
            } else {
                Some(0)
            },
            r matches Some(v) ==> v <= 930,
    {
        if self.above_or_below.is_set(pos) {
            let i = pos.index();
            match tile {
                Tile::Letter(l) => self.lookup[i][l.to_index()],
                Tile::Blank(Some(l)) => self.lookup[i][26 + l.to_index()],
                Tile::Blank(None) => None,
            }
        } else {
            Some(0)
        }
    }

    /// Checks whether a position has an existing tile above or below it.
    pub fn is_above_or_below(&self, pos: Pos) -> (r: bool)
        ensures
            r == self.spec_above_or_below().contains(pos@),
    {
        self.above_or_below.is_set(pos)
    }
}

/// The column paths hold for the squares scanned so far: the columns
/// before `c`, and the first `r` rows of column `c`.
#[verifier::opaque]
spec fn paths_upto<F: Fsm>(f: &F, g: Seq<Option<Tile>>, c: int, r: int) -> bool {
    forall|p: int| 0 <= p < 225 && (p % 15 < c || (p % 15 == c && p / 15 < r)) && #[trigger] letter_at(g, p) is Some
        ==> run(f, f.spec_initial(), above(g, p / 15, p % 15).push(letter_at(g, p)->0)) is Some
}

proof fn lemma_paths_step<F: Fsm>(f: &F, g: Seq<Option<Tile>>, c: int, r: int)
    requires
        0 <= c < 15,
        0 <= r < 15,
        paths_upto(f, g, c, r),
        letter_at(g, r * 15 + c) is Some ==> run(f, f.spec_initial(), above(g, r, c).push(letter_at(g, r * 15 + c)->0)) is Some,
    ensures
        paths_upto(f, g, c, r + 1),
{
    reveal(paths_upto);
    assert((r * 15 + c) / 15 == r && (r * 15 + c) % 15 == c);
    assert forall|pp: int| 0 <= pp < 225 && (pp % 15 < c || (pp % 15 == c && pp / 15 < r + 1)) && #[trigger] letter_at(g, pp)
        is Some implies run(f, f.spec_initial(), above(g, pp / 15, pp % 15).push(letter_at(g, pp)->0)) is Some by {
        if pp % 15 == c && pp / 15 == r {
            assert(pp == r * 15 + c);
        }
    }
}

proof fn lemma_paths_column<F: Fsm>(f: &F, g: Seq<Option<Tile>>, c: int)
    requires
        paths_upto(f, g, c, 15),
    ensures
        paths_upto(f, g, c + 1, 0),
{
    reveal(paths_upto);
    assert forall|pp: int| 0 <= pp < 225 && (pp % 15 < c + 1 || (pp % 15 == c + 1 && pp / 15 < 0)) && #[trigger] letter_at(g, pp)
        is Some implies run(f, f.spec_initial(), above(g, pp / 15, pp % 15).push(letter_at(g, pp)->0)) is Some by {
        assert(pp / 15 < 15);
    }
}

/// Checks that every column of letters of `grid`, from its top down to
/// each of its squares, is a path of the machine: what building a
/// [`Lookup`] needs.
pub fn columns_valid<F: Fsm>(fsm: &F, grid: &Grid) -> (r: bool)
    ensures
        r == columns_traversable(fsm, grid@),
{
    let ghost g = grid@;
    proof {
        Grid::lemma_grid(*grid);
        reveal(paths_upto);
    }
    let mut c: usize = 0;
    while c < 15
        invariant
            c <= 15,
            g == grid@,
            g.len() == 225,
            paths_upto(fsm, g, c as int, 0),
        decreases 15 - c,
    {
        let mut state = fsm.initial_state();
        let mut r: usize = 0;
        while r < 15
            invariant
                c < 15,
                r <= 15,
                g == grid@,
                g.len() == 225,
                fsm.spec_valid(state),
                run(fsm, fsm.spec_initial(), above(g, r as int, c as int)) == Some(state),
                paths_upto(fsm, g, c as int, r as int),
            decreases 15 - r,
        {
            let p = Pos::from_usize(r * 15 + c);
            proof {
                assert(p@ == r * 15 + c);
                assert(p@ / 15 == r && p@ % 15 == c);
            }
            let letter = match grid.at(p) {
                Some(t) => match t.letter() {
                    Ok(l) => Some(l),
                    Err(_) => None,
                },
                None => None,
            };
            match letter {
                Some(l) => {
                    proof {
                        assert(letter_at(g, p@) == Some(l));
                        assert(above(g, r as int, c as int).push(l).drop_last() =~= above(g, r as int, c as int));
                    }
                    match fsm.step(state, l) {
                        Some(s) => {
                            state = s;
                        },
                        None => {
                            proof {
                                assert(!columns_traversable(fsm, g)) by {
                                    assert(letter_at(g, p@) is Some);
                                }
                            }
                            return false;
                        },
                    }
                    proof {
                        lemma_paths_step(fsm, g, c as int, r as int);
                    }
                },
                None => {
                    proof {
                        lemma_paths_step(fsm, g, c as int, r as int);
                    }
                    state = fsm.initial_state();
                    proof {
                        assert(above(g, r as int + 1, c as int) =~= Seq::<Letter>::empty());
                    }
                },
            }
            r = r + 1;
        }
        proof {
            lemma_paths_column(fsm, g, c as int);
        }
        c = c + 1;
    }
    proof {
        reveal(paths_upto);
    }
    true
}

} // verus!
