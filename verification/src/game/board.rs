//! The scrabble board: where tiles lie, and how placing tiles is validated
//! and scored.
use crate::error::{GameError, GameResult};
use crate::game::play::{placed_upto, PlaceBuilder};
use crate::game::tile::Tile;
use crate::game::tiles_of;
use crate::util::bitboard::{word_ends, BitBoard};
use crate::util::fsm::Fsm;
use crate::util::grid::Grid;
use crate::util::pos::Pos;
use crate::util::scoring::{score, spec_score};
use crate::util::words::{hits, pairs, range_from, word_items};
use crate::util::tile_counts::count_in;
use crate::util::{spec_validate, validate_occ_h};
use vstd::prelude::*;

verus! {

broadcast use crate::util::pos::group_pos, crate::util::bitboard::group_bitboard;

/// The square that `i` becomes when rows and columns are swapped.
pub open spec fn swapped(i: int) -> int {
    (i % 15) * 15 + i / 15
}

/// Swapping rows and columns twice gives back the square.
pub proof fn lemma_swapped(i: int)
    requires
        0 <= i < 225,
    ensures
        0 <= swapped(i) < 225,
        swapped(swapped(i)) == i,
        swapped(i) / 15 == i % 15,
        swapped(i) % 15 == i / 15,
{
    let r = i / 15;
    let c = i % 15;
    assert(i == r * 15 + c);
    assert(0 <= r < 15 && 0 <= c < 15);
    assert(swapped(i) == c * 15 + r);
    assert((c * 15 + r) / 15 == c && (c * 15 + r) % 15 == r) by {
        vstd::arithmetic::div_mod::lemma_fundamental_div_mod_converse(c * 15 + r, 15, c, r);
    }
}

/// The squares of `s` with rows and columns swapped.
pub open spec fn swapped_set(s: Set<int>) -> Set<int> {
    Set::new(|j: int| 0 <= j < 225 && s.contains(swapped(j)))
}

/// The tiles of `g` with rows and columns swapped.
pub open spec fn transposed(g: Seq<Option<Tile>>) -> Seq<Option<Tile>> {
    Seq::new(225, |j: int| g[swapped(j)])
}

/// The occupied squares of `g`.
pub open spec fn occupied(g: Seq<Option<Tile>>) -> Set<int> {
    Set::new(|i: int| 0 <= i < 225 && g[i] is Some)
}

/// The squares named in `tp`.
pub open spec fn squares_of(tp: Seq<(Pos, Tile)>) -> Set<int> {
    Set::new(|i: int| exists|k: int| 0 <= k < tp.len() && (#[trigger] tp[k]).0@ == i)
}

/// `g` with each tile of `tp` placed on its square, in order.
pub open spec fn place_all(g: Seq<Option<Tile>>, tp: Seq<(Pos, Tile)>) -> Seq<Option<Tile>>
    decreases tp.len(),
{
    if tp.len() == 0 {
        g
    } else {
        place_all(g, tp.drop_last()).update(tp.last().0@, Some(tp.last().1))
    }
}

/// `g` with every square named in `tp` emptied.
pub open spec fn clear_all(g: Seq<Option<Tile>>, tp: Seq<(Pos, Tile)>) -> Seq<Option<Tile>> {
    Seq::new(g.len(), |i: int| if squares_of(tp).contains(i) { None } else { g[i] })
}

/// Two tiles of `tp` name the same square.
pub open spec fn has_duplicate(tp: Seq<(Pos, Tile)>) -> bool {
    exists|a: int, b: int| 0 <= a < b < tp.len() && (#[trigger] tp[a]).0@ == (#[trigger] tp[b]).0@
}

/// All tiles of `tp` share a row, or all share a column.
pub open spec fn common_line(tp: Seq<(Pos, Tile)>) -> bool {
    (forall|k: int| 0 <= k < tp.len() ==> (#[trigger] tp[k]).0.spec_row() == tp[0].0.spec_row())
        || (forall|k: int| 0 <= k < tp.len() ==> (#[trigger] tp[k]).0.spec_col() == tp[0].0.spec_col())
}

/// The total of the scores of the first `k` words `hs` of `g`, stopping at
/// the first word refused.
pub open spec fn words_fold<F: Fsm>(f: &F, g: Seq<Option<Tile>>, hs: Seq<(int, int)>, new: Set<int>, k: nat) -> GameResult<int>
    decreases k,
{
    if k == 0 {
        Ok(0)
    } else {
        match words_fold(f, g, hs, new, (k - 1) as nat) {
            Err(e) => Err(e),
            Ok(t) => match spec_score(f, word_items(g, range_from(hs[k - 1].0, hs[k - 1].1)), new) {
                Err(e) => Err(e),
                Ok(v) => Ok(t + v),
            },
        }
    }
}

/// The words of `g` read left to right that hold a square of `new`, by
/// their first and last squares.
pub open spec fn new_words(g: Seq<Option<Tile>>, new: Set<int>) -> Seq<(int, int)> {
    hits(pairs(word_ends(occupied(g))), new)
}

/// The score of the words that the tiles on the squares `new` of `g` form,
/// along rows and along columns, with the bonus of 50 for using seven
/// tiles; or the first word refused.
pub open spec fn spec_score_words<F: Fsm>(f: &F, g: Seq<Option<Tile>>, new: Set<int>) -> GameResult<int> {
    let hs = new_words(g, new);
    let vs = new_words(transposed(g), swapped_set(new));
    match words_fold(f, g, hs, new, hs.len()) {
        Err(e) => Err(e),
        Ok(h) => match words_fold(f, transposed(g), vs, swapped_set(new), vs.len()) {
            Err(e) => Err(e),
            Ok(v) => Ok(h + v + if new.len() == 7 { 50int } else { 0int }),
        },
    }
}

/// What placing the tiles `tp` on the board `g` gives: the score, or why
/// the placement is refused.
pub open spec fn spec_placement<F: Fsm>(f: &F, g: Seq<Option<Tile>>, tp: Seq<(Pos, Tile)>) -> GameResult<int> {
    if !(1 <= tp.len() <= 7) {
        Err(GameError::PlacementCount)
    } else if has_duplicate(tp) {
        Err(GameError::DuplicatePosition)
    } else if !common_line(tp) {
        Err(GameError::NoCommonLine)
    } else {
        match spec_validate(occupied(g), squares_of(tp)) {
            Err(e) => Err(e),
            Ok(_) => spec_score_words(f, place_all(g, tp), squares_of(tp)),
        }
    }
}

/// Represents the 15 x 15 scrabble board, storing the location of tiles,
/// and allowing placements to be made and validated. The tiles are kept
/// twice: as laid out, and with rows and columns swapped, so that
/// vertical words read along rows too.
#[derive(Debug)]
pub struct Board {
    grid_h: Grid,
    grid_v: Grid,
}

impl Board {
    #[verifier::type_invariant]
    spec fn inv(self) -> bool {
        &&& self.grid_h@.len() == 225
        &&& self.grid_v@ == transposed(self.grid_h@)
    }

    /// The tile on each square, numbered `0..225` row by row.
    pub closed spec fn view(&self) -> Seq<Option<Tile>> {
        self.grid_h@
    }

    /// A board has 225 squares.
    pub proof fn lemma_len(b: Board)
        ensures
            b@.len() == 225,
    {
        Grid::lemma_grid(b.grid_h);
    }

    /// An empty board.
    pub fn new() -> (b: Board)
        ensures
            forall|i: int| 0 <= i < 225 ==> #[trigger] b@[i] is None,
            b@.len() == 225,
            forall|i: nat| #[trigger] board_count(b@, i) == 0,
    {
        let grid_h = Grid::new();
        let grid_v = Grid::new();
        proof {
            Grid::lemma_grid(grid_h);
            Grid::lemma_grid(grid_v);
            assert(grid_v@ =~= transposed(grid_h@));
        }
        let b = Board { grid_h, grid_v };
        proof {
            assert forall|i: nat| #[trigger] board_count(b@, i) == 0 by {
                lemma_board_count_empty(b@, i);
            }
        }
        b
    }

    /// Gets the tile at `pos`.
    pub fn at(&self, pos: Pos) -> (r: Option<Tile>)
        ensures
            r == self@[pos@],
    {
        self.grid_h.at(pos)
    }

    /// Sets the tile at `pos`.
    fn set(&mut self, pos: Pos, tile: Option<Tile>)
        ensures
            final(self)@ == old(self)@.update(pos@, tile),
    {
        proof {
            use_type_invariant(&*self);
        }
        let mut grid_h = self.grid_h;
        let mut grid_v = self.grid_v;
        let ghost g = grid_h@;
        grid_h.set(pos, tile);
        let sw = pos.swap_rc();
        grid_v.set(sw, tile);
        proof {
            Grid::lemma_grid(grid_h);
            lemma_swapped(pos@);
            assert(sw@ == swapped(pos@));
            assert forall|j: int| 0 <= j < 225 implies #[trigger] grid_v@[j] == transposed(grid_h@)[j] by {
                lemma_swapped(j);
                if j == sw@ {
                    assert(swapped(j) == pos@);
                } else {
                    assert(swapped(j) != pos@);
                }
            }
            assert(grid_v@ =~= transposed(grid_h@));
        }
        *self = Board { grid_h, grid_v };
    }

    /// Gets the tiles as laid out.
    pub fn grid_h(&self) -> (g: &Grid)
        ensures
            g@ == self@,
    {
        &self.grid_h
    }

    /// Gets the tiles with rows and columns swapped.
    pub fn grid_v(&self) -> (g: &Grid)
        ensures
            g@ == transposed(self@),
    {
        proof {
            use_type_invariant(self);
        }
        &self.grid_v
    }

    /// Removes all tiles in `tile_positions` from the board.
    pub fn undo_placement(&mut self, tile_positions: &[(Pos, Tile)])
        ensures
            final(self)@ == clear_all(old(self)@, tile_positions@),
    {
        let ghost g = self@;
        proof {
            Board::lemma_len(*self);
        }
        let mut i: usize = 0;
        while i < tile_positions.len()
            invariant
                i <= tile_positions@.len(),
                g.len() == 225,
                self@ == clear_all(g, tile_positions@.subrange(0, i as int)),
            decreases tile_positions@.len() - i,
        {
            let (pos, _) = tile_positions[i];
            let _ = pos.index();
            self.set(pos, None);
            i = i + 1;
            proof {
                let pre = tile_positions@.subrange(0, i as int);
                assert forall|x: int| #[trigger] squares_of(pre).contains(x) <==> (squares_of(pre.drop_last()).contains(x) || x == pos@) by {
                    if squares_of(pre).contains(x) {
                        let k = choose|k: int| 0 <= k < pre.len() && (#[trigger] pre[k]).0@ == x;
                        if k < pre.len() - 1 {
                            assert(pre.drop_last()[k] == pre[k]);
                        }
                    }
                    if squares_of(pre.drop_last()).contains(x) {
                        let k = choose|k: int| 0 <= k < pre.drop_last().len() && (#[trigger] pre.drop_last()[k]).0@ == x;
                        assert(pre[k] == pre.drop_last()[k]);
                    }
                    if x == pos@ {
                        assert(pre[i as int - 1].0@ == x);
                    }
                }
                assert(pre.drop_last() =~= tile_positions@.subrange(0, i as int - 1));
                assert(self@ =~= clear_all(g, pre));
            }
        }
        proof {
            assert(tile_positions@.subrange(0, i as int) =~= tile_positions@);
        }
    }
}

/// Once summing fails, the error stands.
proof fn lemma_words_fold_err<F: Fsm>(f: &F, g: Seq<Option<Tile>>, hs: Seq<(int, int)>, new: Set<int>, k: nat, n: nat)
    requires
        k <= n,
        words_fold(f, g, hs, new, k) is Err,
    ensures
        words_fold(f, g, hs, new, n) == words_fold(f, g, hs, new, k),
    decreases n - k,
{
    if k < n {
        lemma_words_fold_err(f, g, hs, new, k, (n - 1) as nat);
    }
}

/// Scores the words along the rows of `grid` that hold a square of `new`.
fn score_words_along<F: Fsm>(grid: &Grid, new: BitBoard, fsm: &F) -> (r: GameResult<usize>)
    requires
        new@.len() <= 7,
    ensures
        r matches Ok(v) ==> words_fold(fsm, grid@, new_words(grid@, new@), new@, new_words(grid@, new@).len())
            == Ok::<int, GameError>(v as int) && v <= 7 * 984150,
        r matches Err(e) ==> words_fold(fsm, grid@, new_words(grid@, new@), new@, new_words(grid@, new@).len())
            == Err::<int, GameError>(e),
{
    let occ = grid.occ();
    proof {
        BitBoard::lemma_view_bounded(*occ);
        BitBoard::lemma_view_bounded(new);
        Grid::lemma_grid(*grid);
        assert(occ@ =~= occupied(grid@));
    }
    let mut words = grid.word_boundaries().intersecting(new).words(grid);
    let ghost hs = words.spec_hits();
    proof {
        assert(hs == new_words(grid@, new@));
        crate::util::words::lemma_pairs_order(word_ends(occ@), 0, None);
        crate::util::words::lemma_hits_len(pairs(word_ends(occ@)), new@);
        crate::util::words::lemma_hits_sub(pairs(word_ends(occ@)), new@);
        crate::util::words::lemma_pairs_are_runs(occ@);
    }
    let mut total: usize = 0;
    let mut k: usize = 0;
    loop
        invariant_except_break
            words.spec_hits() == hs.subrange(k as int, hs.len() as int),
        invariant
            words.wf(),
            words.spec_grid() == *grid,
            hs == new_words(grid@, new@),
            hs.len() <= 7,
            new@.len() <= 7,
            k <= hs.len(),
            words_fold(fsm, grid@, hs, new@, k as nat) == Ok::<int, GameError>(total as int),
            total <= k * 984150,
            forall|q: int| 0 <= q < hs.len() ==> #[trigger] crate::util::words::is_run(occ@, hs[q]),
        ensures
            k == hs.len(),
        decreases hs.len() - k,
    {
        let ghost before = words.spec_hits();
        let word = match words.next() {
            Some(w) => w,
            None => {
                break;
            },
        };
        proof {
            assert(before[0] == hs[k as int]);
            let h = hs[k as int];
            assert(crate::util::words::is_run(occ@, h));
            crate::util::words::lemma_range_from(h.0, h.1);
            crate::util::words::lemma_word_items_prefix(grid@, range_from(h.0, h.1));
        }
        match score(word, &new, fsm) {
            Ok(v) => {
                total = total + v;
            },
            Err(e) => {
                proof {
                    lemma_words_fold_err(fsm, grid@, hs, new@, (k + 1) as nat, hs.len());
                }
                return Err(e);
            },
        }
        k = k + 1;
        proof {
            assert(words.spec_hits() =~= hs.subrange(k as int, hs.len() as int));
        }
    }
    Ok(total)
}

impl Board {
    /// Computes the combined score for horizontal and vertical words,
    /// adding the 50 point bonus where seven tiles were placed. If an
    /// invalid word is encountered, returns an error.
    fn score_and_validate<F: Fsm>(&self, new_h: BitBoard, new_v: BitBoard, fsm: &F) -> (r: GameResult<usize>)
        requires
            new_h@.len() <= 7,
            new_v@ == swapped_set(new_h@),
            new_v@.len() <= 7,
        ensures
            r matches Ok(v) ==> spec_score_words(fsm, self@, new_h@) == Ok::<int, GameError>(v as int)
                && v <= 13778150,
            r matches Err(e) ==> spec_score_words(fsm, self@, new_h@) == Err::<int, GameError>(e),
    {
        proof {
            use_type_invariant(self);
        }
        let h = match score_words_along(&self.grid_h, new_h, fsm) {
            Ok(h) => h,
            Err(e) => {
                return Err(e);
            },
        };
        let v = match score_words_along(&self.grid_v, new_v, fsm) {
            Ok(v) => v,
            Err(e) => {
                return Err(e);
            },
        };
        if new_h.bit_count() == 7 {
            Ok(h + v + 50)
        } else {
            Ok(h + v)
        }
    }

    /// Attempts to place the tiles `tile_positions` on the board. If
    /// successful, returns the score from placing the new tiles; otherwise
    /// the board is left as it was.
    pub fn make_placement<F: Fsm>(&mut self, tile_positions: &[(Pos, Tile)], fsm: &F) -> (r: GameResult<usize>)
        ensures
            r matches Ok(v) ==> spec_placement(fsm, old(self)@, tile_positions@) == Ok::<int, GameError>(v as int)
                && final(self)@ == place_all(old(self)@, tile_positions@) && v <= 13778150
                && occupied(old(self)@).len() < occupied(final(self)@).len()
                && forall|i: nat| #[trigger] board_count(final(self)@, i) == board_count(old(self)@, i)
                    + count_in(tiles_of(tile_positions@), i),
            r matches Err(e) ==> spec_placement(fsm, old(self)@, tile_positions@) == Err::<int, GameError>(e)
                && final(self)@ == old(self)@,
    {
        let ghost g = self@;
        let ghost tp = tile_positions@;
        proof {
            Board::lemma_len(*self);
        }
        let n = tile_positions.len();
        if n < 1 || n > 7 {
            return Err(GameError::PlacementCount);
        }
        let (first_pos, _) = tile_positions[0];
        let (row, col) = first_pos.row_col();
        let mut same_row = true;
        let mut same_col = true;
        let mut new_h = BitBoard::zero();
        let mut new_v = BitBoard::zero();
        let mut i: usize = 0;
        while i < n
            invariant
                n == tp.len(),
                1 <= n <= 7,
                tp == tile_positions@,
                i <= n,
                row@ == tp[0].0.spec_row(),
                col@ == tp[0].0.spec_col(),
                new_h@ == squares_of(tp.subrange(0, i as int)),
                new_v@ == swapped_set(new_h@),
                new_h@.len() <= i,
                new_v@.len() <= i,
                !has_duplicate(tp.subrange(0, i as int)),
                same_row == forall|k: int| 0 <= k < i ==> (#[trigger] tp[k]).0.spec_row() == tp[0].0.spec_row(),
                same_col == forall|k: int| 0 <= k < i ==> (#[trigger] tp[k]).0.spec_col() == tp[0].0.spec_col(),
            decreases n - i,
        {
            let (pos, _) = tile_positions[i];
            let _ = pos.index();
            let ghost pre = tp.subrange(0, i as int);
            let ghost pre1 = tp.subrange(0, i as int + 1);
            if new_h.is_set(pos) {
                proof {
                    let k = choose|k: int| 0 <= k < pre.len() && (#[trigger] pre[k]).0@ == pos@;
                    assert(tp[k] == pre[k]);
                    assert(tp[k].0@ == tp[i as int].0@);
                    assert(has_duplicate(tp));
                }
                return Err(GameError::DuplicatePosition);
            }
            same_row = same_row && row.index() == pos.row().index();
            same_col = same_col && col.index() == pos.col().index();
            let sw = pos.swap_rc();
            proof {
                BitBoard::lemma_view_bounded(new_h);
                BitBoard::lemma_view_bounded(new_v);
                lemma_swapped(pos@);
            }
            let ghost old_h = new_h@;
            let ghost old_v = new_v@;
            new_h.set(pos);
            new_v.set(sw);
            proof {
                assert forall|x: int| #[trigger] squares_of(pre1).contains(x) <==> (old_h.contains(x) || x == pos@) by {
                    if squares_of(pre1).contains(x) {
                        let k = choose|k: int| 0 <= k < pre1.len() && (#[trigger] pre1[k]).0@ == x;
                        if k < i {
                            assert(pre[k] == pre1[k]);
                        }
                    }
                    if old_h.contains(x) {
                        let k = choose|k: int| 0 <= k < pre.len() && (#[trigger] pre[k]).0@ == x;
                        assert(pre1[k] == pre[k]);
                    }
                    if x == pos@ {
                        assert(pre1[i as int].0@ == x);
                    }
                }
                assert(new_h@ =~= squares_of(pre1));
                assert forall|j: int| #[trigger] swapped_set(new_h@).contains(j) <==> new_v@.contains(j) by {
                    if 0 <= j < 225 {
                        lemma_swapped(j);
                    }
                }
                assert(new_v@ =~= swapped_set(new_h@));
                assert(!has_duplicate(pre1)) by {
                    if has_duplicate(pre1) {
                        let (a, b) = choose|a: int, b: int| 0 <= a < b < pre1.len() && (#[trigger] pre1[a]).0@ == (#[trigger] pre1[b]).0@;
                        if b < i {
                            assert(pre[a] == pre1[a] && pre[b] == pre1[b]);
                        } else {
                            assert(pre[a] == pre1[a]);
                            assert(old_h.contains(pre1[a].0@));
                        }
                    }
                }
            }
            i = i + 1;
        }
        proof {
            assert(tp.subrange(0, n as int) =~= tp);
        }
        if !same_row && !same_col {
            return Err(GameError::NoCommonLine);
        }
        let occ_h = *self.grid_h().occ();
        proof {
            BitBoard::lemma_view_bounded(occ_h);
            assert(occ_h@ =~= occupied(g));
        }
        match validate_occ_h(occ_h, new_h) {
            Ok(_) => {},
            Err(e) => {
                return Err(e);
            },
        }
        let mut j: usize = 0;
        while j < n
            invariant
                n == tp.len(),
                tp == tile_positions@,
                j <= n,
                g.len() == 225,
                self@ == place_all(g, tp.subrange(0, j as int)),
            decreases n - j,
        {
            let (pos, tile) = tile_positions[j];
            self.set(pos, Some(tile));
            j = j + 1;
            proof {
                let pre = tp.subrange(0, j as int);
                assert(pre.drop_last() =~= tp.subrange(0, j as int - 1));
            }
        }
        proof {
            assert(tp.subrange(0, n as int) =~= tp);
        }
        match self.score_and_validate(new_h, new_v, fsm) {
            Ok(score) => {
                proof {
                    BitBoard::lemma_view_bounded(new_h);
                    assert(squares_of(tp).contains(tp[0].0@));
                    assert forall|k: int| 0 <= k < tp.len() implies 0 <= (#[trigger] tp[k]).0@ < 225 by {
                        assert(squares_of(tp).contains(tp[k].0@));
                    }
                    lemma_place_all(g, tp);
                    lemma_occupied_grows(g, self@, tp[0].0@);
                    assert forall|k: int| 0 <= k < tp.len() implies 0 <= (#[trigger] tp[k]).0@ < g.len() && g[tp[k].0@] is None by {
                        assert(squares_of(tp).contains(tp[k].0@));
                        assert(new_h@.contains(tp[k].0@));
                        assert(!occupied(g).contains(tp[k].0@));
                    }
                    assert forall|i: nat| #[trigger] board_count(self@, i) == board_count(g, i) + count_in(tiles_of(tp), i) by {
                        lemma_board_count_place(g, tp, i);
                    }
                }
                Ok(score)
            },
            Err(e) => {
                let ghost placed = self@;
                self.undo_placement(tile_positions);
                proof {
                    BitBoard::lemma_view_bounded(new_h);
                    assert forall|k: int| 0 <= k < tp.len() implies 0 <= (#[trigger] tp[k]).0@ < 225 && g[tp[k].0@] is None by {
                        assert(squares_of(tp).contains(tp[k].0@));
                        assert(new_h@.contains(tp[k].0@));
                        assert(!occupied(g).contains(tp[k].0@));
                    }
                    lemma_place_clear(g, tp);
                }
                Err(e)
            },
        }
    }
}

/// Filling an empty square, and keeping every other tile, makes more
/// squares occupied.
proof fn lemma_occupied_grows(g: Seq<Option<Tile>>, g2: Seq<Option<Tile>>, p: int)
    requires
        g.len() == 225,
        g2.len() == 225,
        0 <= p < 225,
        g[p] is None,
        g2[p] is Some,
        forall|i: int| 0 <= i < 225 && g[i] is Some ==> #[trigger] g2[i] is Some,
    ensures
        occupied(g).len() < occupied(g2).len(),
{
    vstd::set_lib::lemma_int_range(0, 225);
    assert(occupied(g2).subset_of(vstd::set_lib::set_int_range(0, 225)));
    vstd::set_lib::lemma_len_subset(occupied(g2), vstd::set_lib::set_int_range(0, 225));
    assert(occupied(g).insert(p).subset_of(occupied(g2)));
    vstd::set_lib::lemma_len_subset(occupied(g).insert(p), occupied(g2));
    assert(occupied(g).subset_of(occupied(g2)));
    vstd::set_lib::lemma_len_subset(occupied(g), occupied(g2));
    assert(!occupied(g).contains(p));
}

/// The number of squares of `g` holding a tile of kind `i`.
pub open spec fn board_count(g: Seq<Option<Tile>>, i: nat) -> nat
    decreases g.len(),
{
    if g.len() == 0 {
        0
    } else {
        board_count(g.drop_last(), i) + if g.last() is Some && g.last()->0.index() == i {
            1nat
        } else {
            0nat
        }
    }
}

/// An empty board holds no tile.
proof fn lemma_board_count_empty(g: Seq<Option<Tile>>, i: nat)
    requires
        forall|k: int| 0 <= k < g.len() ==> #[trigger] g[k] is None,
    ensures
        board_count(g, i) == 0,
    decreases g.len(),
{
    if g.len() > 0 {
        assert(g.last() == g[g.len() - 1]);
        assert forall|k: int| 0 <= k < g.drop_last().len() implies #[trigger] g.drop_last()[k] is None by {
            assert(g.drop_last()[k] == g[k]);
        }
        lemma_board_count_empty(g.drop_last(), i);
    }
}

/// Putting a tile on an empty square adds it to the count of its kind.
proof fn lemma_board_count_update(g: Seq<Option<Tile>>, p: int, t: Tile, i: nat)
    requires
        0 <= p < g.len(),
        g[p] is None,
    ensures
        board_count(g.update(p, Some(t)), i) == board_count(g, i) + if t.index() == i {
            1nat
        } else {
            0nat
        },
    decreases g.len(),
{
    let u = g.update(p, Some(t));
    if p == g.len() - 1 {
        assert(u.drop_last() =~= g.drop_last());
        assert(g.last() == g[p]);
    } else {
        assert(u.drop_last() =~= g.drop_last().update(p, Some(t)));
        assert(u.last() == g.last());
        lemma_board_count_update(g.drop_last(), p, t, i);
    }
}

/// Placing tiles on distinct empty squares adds them to the counts of
/// their kinds.
proof fn lemma_board_count_place(g: Seq<Option<Tile>>, tp: Seq<(Pos, Tile)>, i: nat)
    requires
        !has_duplicate(tp),
        forall|k: int| 0 <= k < tp.len() ==> 0 <= (#[trigger] tp[k]).0@ < g.len() && g[tp[k].0@] is None,
    ensures
        board_count(place_all(g, tp), i) == board_count(g, i) + count_in(tiles_of(tp), i),
    decreases tp.len(),
{
    if tp.len() > 0 {
        let d = tp.drop_last();
        assert(!has_duplicate(d)) by {
            if has_duplicate(d) {
                let (a, b) = choose|a: int, b: int| 0 <= a < b < d.len() && (#[trigger] d[a]).0@ == (#[trigger] d[b]).0@;
                assert(d[a] == tp[a] && d[b] == tp[b]);
            }
        }
        assert forall|k: int| 0 <= k < d.len() implies 0 <= (#[trigger] d[k]).0@ < g.len() && g[d[k].0@] is None by {
            assert(d[k] == tp[k]);
        }
        lemma_board_count_place(g, d, i);
        lemma_place_all(g, d);
        let last = tp.last();
        assert(last == tp[tp.len() - 1]);
        assert(!squares_of(d).contains(last.0@)) by {
            if squares_of(d).contains(last.0@) {
                let k = choose|k: int| 0 <= k < d.len() && (#[trigger] d[k]).0@ == last.0@;
                assert(d[k] == tp[k]);
            }
        }
        assert(place_all(g, d)[last.0@] is None);
        lemma_board_count_update(place_all(g, d), last.0@, last.1, i);
        assert(tiles_of(tp).drop_last() =~= tiles_of(d));
        assert(tiles_of(tp).last() == last.1);
    } else {
        assert(tiles_of(tp).len() == 0);
    }
}

/// Tiles on no square twice name as many squares as there are tiles.
proof fn lemma_squares_len(tp: Seq<(Pos, Tile)>)
    requires
        !has_duplicate(tp),
    ensures
        squares_of(tp).finite(),
        squares_of(tp).len() == tp.len(),
    decreases tp.len(),
{
    if tp.len() == 0 {
        assert(squares_of(tp) =~= Set::<int>::empty());
    } else {
        let d = tp.drop_last();
        assert(!has_duplicate(d)) by {
            if has_duplicate(d) {
                let (a, b) = choose|a: int, b: int| 0 <= a < b < d.len() && (#[trigger] d[a]).0@ == (#[trigger] d[b]).0@;
                assert(tp[a] == d[a] && tp[b] == d[b]);
            }
        }
        lemma_squares_len(d);
        let x = tp.last().0@;
        assert(!squares_of(d).contains(x)) by {
            if squares_of(d).contains(x) {
                let k = choose|k: int| 0 <= k < d.len() && (#[trigger] d[k]).0@ == x;
                assert(tp[k] == d[k]);
                assert(tp[k].0@ == tp[tp.len() - 1].0@);
            }
        }
        assert(squares_of(tp) =~= squares_of(d).insert(x)) by {
            assert forall|i: int| #[trigger] squares_of(tp).contains(i) implies squares_of(d).insert(x).contains(i) by {
                let k = choose|k: int| 0 <= k < tp.len() && (#[trigger] tp[k]).0@ == i;
                if k < tp.len() - 1 {
                    assert(d[k] == tp[k]);
                }
            }
            assert forall|i: int| #[trigger] squares_of(d).insert(x).contains(i) implies squares_of(tp).contains(i) by {
                if i == x {
                    assert(tp[tp.len() - 1].0@ == i);
                } else {
                    let k = choose|k: int| 0 <= k < d.len() && (#[trigger] d[k]).0@ == i;
                    assert(tp[k] == d[k]);
                }
            }
        }
    }
}

/// A placement that the board accepts scores the words it forms, along
/// the rows and along the columns, plus fifty when it places seven tiles
/// and nothing more when it places fewer.
pub proof fn law_seven_tile_bonus<F: Fsm>(f: &F, g: Seq<Option<Tile>>, tp: Seq<(Pos, Tile)>)
    requires
        spec_placement(f, g, tp) is Ok,
    ensures
        ({
            let pa = place_all(g, tp);
            let n = squares_of(tp);
            let hs = new_words(pa, n);
            let vs = new_words(transposed(pa), swapped_set(n));
            &&& words_fold(f, pa, hs, n, hs.len()) is Ok
            &&& words_fold(f, transposed(pa), vs, swapped_set(n), vs.len()) is Ok
            &&& tp.len() == 7 ==> spec_placement(f, g, tp) == Ok::<int, GameError>(
                words_fold(f, pa, hs, n, hs.len())->Ok_0 + words_fold(f, transposed(pa), vs, swapped_set(n), vs.len())->Ok_0
                    + 50,
            )
            &&& tp.len() < 7 ==> spec_placement(f, g, tp) == Ok::<int, GameError>(
                words_fold(f, pa, hs, n, hs.len())->Ok_0 + words_fold(f, transposed(pa), vs, swapped_set(n), vs.len())->Ok_0,
            )
        }),
{
    lemma_squares_len(tp);
}

/// Undoing a placement that was accepted gives back the board it was made
/// on.
pub proof fn law_undo_placement<F: Fsm>(f: &F, g: Seq<Option<Tile>>, tp: Seq<(Pos, Tile)>)
    requires
        g.len() == 225,
        forall|k: int| 0 <= k < tp.len() ==> 0 <= (#[trigger] tp[k]).0@ < 225,
        spec_placement(f, g, tp) is Ok,
    ensures
        clear_all(place_all(g, tp), tp) == g,
{
    assert(spec_validate(occupied(g), squares_of(tp)) is Ok);
    assert(occupied(g).disjoint(squares_of(tp)));
    assert forall|k: int| 0 <= k < tp.len() implies 0 <= (#[trigger] tp[k]).0@ < 225 && g[tp[k].0@] is None by {
        assert(squares_of(tp).contains(tp[k].0@));
        assert(!occupied(g).contains(tp[k].0@));
    }
    lemma_place_clear(g, tp);
}

/// Placing tiles on empty squares and then emptying those squares gives
/// back the board.
proof fn lemma_place_clear(g: Seq<Option<Tile>>, tp: Seq<(Pos, Tile)>)
    requires
        g.len() == 225,
        forall|k: int| 0 <= k < tp.len() ==> 0 <= (#[trigger] tp[k]).0@ < 225 && g[tp[k].0@] is None,
    ensures
        clear_all(place_all(g, tp), tp) == g,
    decreases tp.len(),
{
    lemma_place_all(g, tp);
    assert(clear_all(place_all(g, tp), tp) =~= g);
}

/// Placing tiles changes only their squares, each to one of the tiles
/// named for it.
pub proof fn lemma_place_all(g: Seq<Option<Tile>>, tp: Seq<(Pos, Tile)>)
    requires
        forall|k: int| 0 <= k < tp.len() ==> 0 <= (#[trigger] tp[k]).0@ < g.len(),
    ensures
        place_all(g, tp).len() == g.len(),
        forall|i: int| 0 <= i < g.len() && !squares_of(tp).contains(i) ==> #[trigger] place_all(g, tp)[i] == g[i],
        forall|i: int| 0 <= i < g.len() && squares_of(tp).contains(i) ==> #[trigger] place_all(g, tp)[i] is Some,
    decreases tp.len(),
{
    if tp.len() > 0 {
        let d = tp.drop_last();
        assert forall|k: int| 0 <= k < d.len() implies 0 <= (#[trigger] d[k]).0@ < g.len() by {
            assert(d[k] == tp[k]);
        }
        lemma_place_all(g, d);
        assert forall|i: int| #[trigger] squares_of(tp).contains(i) <==> (squares_of(d).contains(i) || i == tp.last().0@) by {
            if squares_of(tp).contains(i) {
                let k = choose|k: int| 0 <= k < tp.len() && (#[trigger] tp[k]).0@ == i;
                if k < tp.len() - 1 {
                    assert(d[k] == tp[k]);
                }
            }
            if squares_of(d).contains(i) {
                let k = choose|k: int| 0 <= k < d.len() && (#[trigger] d[k]).0@ == i;
                assert(tp[k] == d[k]);
            }
            if i == tp.last().0@ {
                assert(tp[tp.len() - 1].0@ == i);
            }
        }
    }
}

/// Used to construct an arbitrary board position without validation.
#[derive(Debug)]
pub struct BoardBuilder {
    board: Board,
}

impl View for BoardBuilder {
    type V = Seq<Option<Tile>>;

    /// The tiles of the board under construction.
    closed spec fn view(&self) -> Seq<Option<Tile>> {
        self.board@
    }
}

impl Default for BoardBuilder {
    fn default() -> (b: BoardBuilder)
        ensures
            forall|i: int| 0 <= i < 225 ==> #[trigger] b@[i] is None,
            b@.len() == 225,
    {
        BoardBuilder { board: Board::new() }
    }
}

impl BoardBuilder {
    /// Places a word on the board, without performing any validation
    /// checks.
    pub fn place(self, builder: PlaceBuilder) -> (b: BoardBuilder)
        ensures
            b@ == place_all(self@, placed_upto(
                builder.spec_start(),
                builder.spec_dir(),
                builder.spec_tiles(),
                self@,
                builder.spec_tiles().len(),
            )),
    {
        let mut board = self.board;
        let tp = builder.tile_positions(&board);
        let ghost g = board@;
        let mut i: usize = 0;
        while i < tp.len()
            invariant
                i <= tp@.len(),
                board@ == place_all(g, tp@.subrange(0, i as int)),
            decreases tp@.len() - i,
        {
            let (pos, tile) = tp[i];
            board.set(pos, Some(tile));
            i = i + 1;
            proof {
                assert(tp@.subrange(0, i as int).drop_last() =~= tp@.subrange(0, i as int - 1));
            }
        }
        proof {
            assert(tp@.subrange(0, i as int) =~= tp@);
        }
        BoardBuilder { board }
    }

    /// Constructs the [`Board`].
    pub fn build(self) -> (b: Board)
        ensures
            b@ == self@,
    {
        self.board
    }
}

impl Clone for Board {
    fn clone(&self) -> (b: Board)
        ensures
            b@ == self@,
    {
        proof {
            use_type_invariant(self);
        }
        Board { grid_h: self.grid_h, grid_v: self.grid_v }
    }
}

impl Default for Board {
    fn default() -> (b: Board)
        ensures
            forall|i: int| 0 <= i < 225 ==> #[trigger] b@[i] is None,
            b@.len() == 225,
    {
        Board::new()
    }
}

} // verus!
