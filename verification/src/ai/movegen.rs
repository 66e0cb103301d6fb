//! Move generation: the placements a player could make with their rack,
//! found by following the machine along each row from each square where a
//! word could start.
use crate::ai::lookup::{
    above, above_or_below_of, below, columns_traversable, key_of, letter_at, opt_int, score_at, spec_entry,
    tile_of_key, vertical_score, Lookup,
};
use crate::game::board::{occupied, place_all, swapped, transposed, Board};
use crate::game::play::Play;
use crate::game::rack::Rack;
use crate::game::tile::{Letter, Tile};
use crate::game::{rack_holds, tiles_of};
use crate::util::bitboard::{has_left, west_of, BitBoard};
use crate::util::fsm::{accepts_word, run, Fsm, StateId};
use crate::util::grid::Grid;
use crate::util::pos::{multipliers_at, Direction, Pos};
use crate::util::{possible_starts_h, spec_possible_starts, within_west};
use crate::util::scoring::pow3;
use crate::util::tile_counts::{count_in, sum, TileCounts};
use vstd::prelude::*;

verus! {

broadcast use crate::util::pos::group_pos, crate::util::bitboard::group_bitboard;

/// A generated play, with details that can be used to rank it.
#[derive(Debug)]
pub struct GeneratedPlay {
    /// The play (tile positions).
    pub tile_positions: Vec<(Pos, Tile)>,
    /// The total score of the play.
    pub score: usize,
    /// The number of perpendicular words formed, leaving out any that
    /// scores nothing (made of blanks alone).
    pub cross_count: usize,
    /// The length of the primary word.
    pub len: usize,
}

impl GeneratedPlay {
    /// Converts to a [`Play`].
    pub fn play(self) -> (p: Play)
        ensures
            p matches Play::Place(tp) && tp@ == self.tile_positions@,
    {
        Play::Place(self.tile_positions)
    }
}

impl From<GeneratedPlay> for Play {
    fn from(gen_play: GeneratedPlay) -> (p: Play) {
        Play::Place(gen_play.tile_positions)
    }
}

impl vstd::std_specs::convert::FromSpecImpl<GeneratedPlay> for Play {
    open spec fn obeys_from_spec() -> bool {
        true
    }

    open spec fn from_spec(gen_play: GeneratedPlay) -> Play {
        Play::Place(gen_play.tile_positions)
    }
}

/// The tiles `tp` lie on squares of one row, or of one column, in
/// increasing order.
pub open spec fn ascending_line(tp: Seq<(Pos, Tile)>) -> bool {
    &&& forall|a: int, b: int| 0 <= a < b < tp.len() ==> (#[trigger] tp[a]).0@ < (#[trigger] tp[b]).0@
    &&& (forall|k: int| 0 <= k < tp.len() ==> (#[trigger] tp[k]).0@ / 15 == tp[0].0@ / 15) || (forall|k: int|
        0 <= k < tp.len() ==> (#[trigger] tp[k]).0@ % 15 == tp[0].0@ % 15)
}

/// What every generated play satisfies, on the board `b` for the rack
/// `rack`: one to seven tiles from the rack, each standing for a letter,
/// on squares without a letter, along one row or one column in order.
pub open spec fn generated(b: Seq<Option<Tile>>, rack: Seq<usize>, gp: GeneratedPlay) -> bool {
    let tp = gp.tile_positions@;
    &&& 1 <= tp.len() <= 7
    &&& rack_holds(rack, tiles_of(tp))
    &&& forall|k: int| 0 <= k < tp.len() ==> 0 <= (#[trigger] tp[k]).0@ < 225 && letter_at(b, tp[k].0@) is None
        && tp[k].1.spec_letter() is Some
    &&& ascending_line(tp)
}

/// The letters on squares `a` up to (not including) `b` of `g`.
pub open spec fn letters_between(g: Seq<Option<Tile>>, a: int, b: int) -> Seq<Letter> {
    Seq::new((b - a) as nat, |k: int| letter_at(g, a + k)->0)
}

/// Placing the tiles `tp` of a play on `b` completes a word along the line
/// of the play: reading the board along its rows (or, when `vertical`,
/// along its columns), the squares from `s` up to (not including) `e`,
/// which run over every tile, all hold letters, no letter lies just before
/// `s` or at `e` in that line, the word has two letters or more, and the
/// letters spell a word that the machine accepts. Each tile also makes an
/// accepted word across the line where it touches a letter there. And the
/// play touches the tiles already on the board or covers the start square:
/// the word runs through a tile, a tile lies next to one across the line,
/// or a tile lies on the start square. A single tile placed along the rows
/// lies next to no tile across them (such a play is taken along the
/// columns).
pub open spec fn forms_word<F: Fsm>(f: &F, b: Seq<Option<Tile>>, tp: Seq<(Pos, Tile)>, vertical: bool, s: int, e: int) -> bool {
    let g = oriented(place_all(b, tp), vertical);
    &&& tp.len() >= 1
    &&& 0 <= s < e <= 225
    &&& s / 15 == (e - 1) / 15
    &&& e - s >= 2
    &&& forall|k: int| 0 <= k < tp.len() ==> s <= #[trigger] board_pos(tp[k].0@, vertical) < e
    &&& forall|q: int| s <= q < e ==> #[trigger] letter_at(g, q) is Some
    &&& (s % 15 > 0 ==> letter_at(g, s - 1) is None)
    &&& (e % 15 > 0 ==> letter_at(g, e) is None)
    &&& accepts_word(f, letters_between(g, s, e))
    &&& forall|k: int|
        0 <= k < tp.len() ==> cross_word_ok(f, oriented(b, vertical), board_pos((#[trigger] tp[k]).0@, vertical), tp[k].1)
    &&& (exists|q: int| s <= q < e && #[trigger] letter_at(oriented(b, vertical), q) is Some) || (exists|k: int|
        0 <= k < tp.len() && above_or_below_of(oriented(b, vertical)).contains(
            board_pos((#[trigger] tp[k]).0@, vertical),
        )) || (exists|k: int| 0 <= k < tp.len() && board_pos((#[trigger] tp[k]).0@, vertical) == 112)
    &&& tp.len() > 1 || vertical || !above_or_below_of(oriented(b, vertical)).contains(board_pos(tp[0].0@, vertical))
}

/// Placing `t` on square `p` of `g`, where a letter lies just above or
/// just below `p`, makes a word across the line of the play: the letters
/// above, the letter of `t`, and the letters below; the machine accepts it.
pub open spec fn cross_word_ok<F: Fsm>(f: &F, g: Seq<Option<Tile>>, p: int, t: Tile) -> bool {
    above_or_below_of(g).contains(p) ==> accepts_word(
        f,
        above(g, p / 15, p % 15).push(t.spec_letter()->0) + below(g, p / 15, p % 15),
    )
}

/// The squares of the tiles of a play counted along its line (the board's
/// rows, or its columns when `vertical`), with the tiles.
pub open spec fn in_line(tp: Seq<(Pos, Tile)>, vertical: bool) -> Seq<(int, Tile)> {
    tp.map_values(|pt: (Pos, Tile)| (board_pos(pt.0@, vertical), pt.1))
}

/// Whether a tile of `sq` lies on square `q`.
pub open spec fn placed_on(sq: Seq<(int, Tile)>, q: int) -> bool {
    exists|k: int| 0 <= k < sq.len() && #[trigger] sq[k].0 == q
}

/// The total score of the tiles already on squares `a` up to `b` of `g`,
/// leaving out the squares of `sq`.
pub open spec fn old_tiles_score(g: Seq<Option<Tile>>, sq: Seq<(int, Tile)>, a: int, b: int) -> int
    decreases b - a,
{
    if b <= a {
        0
    } else {
        old_tiles_score(g, sq, a, b - 1) + if placed_on(sq, b - 1) {
            0
        } else {
            score_at(g, b - 1)
        }
    }
}

/// The score of the word across the line that placing `t` on `q` makes,
/// when it touches a letter there; else nothing.
pub open spec fn cross_score<F: Fsm>(f: &F, g: Seq<Option<Tile>>, q: int, t: Tile) -> int {
    if above_or_below_of(g).contains(q) {
        match vertical_score(f, g, q, t) {
            Some(v) => v,
            None => 0,
        }
    } else {
        0
    }
}

/// What the placed tiles `sq` add to the word along the line: each tile's
/// score times the letter multiplier of its square.
pub open spec fn new_tiles_score(sq: Seq<(int, Tile)>) -> int
    decreases sq.len(),
{
    if sq.len() == 0 {
        0
    } else {
        new_tiles_score(sq.drop_last()) + multipliers_at(sq.last().0).0 * sq.last().1.spec_score()
    }
}

/// The total score of the words across the line that the placed tiles
/// `sq` make.
pub open spec fn cross_total<F: Fsm>(f: &F, g: Seq<Option<Tile>>, sq: Seq<(int, Tile)>) -> int
    decreases sq.len(),
{
    if sq.len() == 0 {
        0
    } else {
        cross_total(f, g, sq.drop_last()) + cross_score(f, g, sq.last().0, sq.last().1)
    }
}

/// The product of the word multipliers of the squares of `sq`.
pub open spec fn word_multiplier(sq: Seq<(int, Tile)>) -> int
    decreases sq.len(),
{
    if sq.len() == 0 {
        1
    } else {
        word_multiplier(sq.drop_last()) * multipliers_at(sq.last().0).1
    }
}

/// How many of the placed tiles `sq` make a scoring word across the line.
pub open spec fn cross_count_of<F: Fsm>(f: &F, g: Seq<Option<Tile>>, sq: Seq<(int, Tile)>) -> int
    decreases sq.len(),
{
    if sq.len() == 0 {
        0
    } else {
        cross_count_of(f, g, sq.drop_last()) + if cross_score(f, g, sq.last().0, sq.last().1) > 0 {
            1int
        } else {
            0int
        }
    }
}

/// The values recorded with a play whose word runs from `s` to before `e`
/// along its line:
/// its length; how many of its tiles make a scoring word across the line;
/// and its score: the score of the tiles already in the word plus what the
/// placed tiles add, times the word multipliers of the placed tiles'
/// squares; plus the scores of the words across the line; with fifty more
/// for a play of seven tiles.
pub open spec fn play_values<F: Fsm>(f: &F, b: Seq<Option<Tile>>, gp: GeneratedPlay, vertical: bool, s: int, e: int) -> bool {
    let g = oriented(b, vertical);
    let sq = in_line(gp.tile_positions@, vertical);
    &&& gp.len == e - s
    &&& gp.cross_count == cross_count_of(f, g, sq)
    &&& gp.score == (old_tiles_score(g, sq, s, e) + new_tiles_score(sq)) * word_multiplier(sq) + cross_total(f, g, sq)
        + if sq.len() == 7 {
        50int
    } else {
        0int
    }
}

/// The play completes a word of the machine along the board's columns
/// (`vertical`) or along its rows.
pub open spec fn along<F: Fsm>(f: &F, b: Seq<Option<Tile>>, gp: GeneratedPlay, vertical: bool) -> bool {
    exists|s: int, e: int| #[trigger] forms_word(f, b, gp.tile_positions@, vertical, s, e)
}

/// No two plays of `plays` from index `from` up to `to` place the same
/// tiles on the same squares.
pub open spec fn distinct_plays(plays: Seq<GeneratedPlay>, from: int, to: int) -> bool {
    forall|i: int, j: int|
        from <= i < j < to ==> (#[trigger] plays[i]).tile_positions@ != (#[trigger] plays[j]).tile_positions@
}

/// The first `n` plays of `plays` complete their words along the board's
/// columns, the others along its rows.
pub open spec fn columns_then_rows<F: Fsm>(f: &F, b: Seq<Option<Tile>>, plays: Seq<GeneratedPlay>, n: int) -> bool {
    &&& 0 <= n <= plays.len()
    &&& forall|k: int| 0 <= k < n ==> along(f, b, #[trigger] plays[k], true)
    &&& forall|k: int| n <= k < plays.len() ==> along(f, b, #[trigger] plays[k], false)
}

/// A play of tiles on empty squares, in order along one row or one column,
/// completes its word along the board's columns or along its rows, never
/// both: so no play is found both among the words along the columns and
/// among those along the rows.
pub proof fn law_one_line<F: Fsm>(f: &F, b: Seq<Option<Tile>>, gp: GeneratedPlay)
    requires
        b.len() == 225,
        gp.tile_positions@.len() >= 1,
        forall|k: int|
            0 <= k < gp.tile_positions@.len() ==> 0 <= (#[trigger] gp.tile_positions@[k]).0@ < 225
                && b[gp.tile_positions@[k].0@] is None,
        ascending_line(gp.tile_positions@),
    ensures
        !(along(f, b, gp, true) && along(f, b, gp, false)),
{
    let tp = gp.tile_positions@;
    let n = tp.len();
    if along(f, b, gp, true) && along(f, b, gp, false) {
        let (s1, e1) = choose|s: int, e: int| #[trigger] forms_word(f, b, tp, true, s, e);
        let (s2, e2) = choose|s: int, e: int| #[trigger] forms_word(f, b, tp, false, s, e);
        let p0 = tp[0].0@;
        let pl = tp.last().0@;
        assert(tp.last() == tp[n - 1]);
        assert(s1 <= board_pos(tp[0].0@, true) && board_pos(tp[n - 1].0@, true) < e1);
        assert(s2 <= board_pos(tp[0].0@, false) && board_pos(tp[n - 1].0@, false) < e2);
        crate::game::board::lemma_swapped(p0);
        crate::game::board::lemma_swapped(pl);
        if n >= 2 {
            assert(p0 < pl);
            assert(p0 / 15 == pl / 15);
            assert(false);
        } else {
            let p = p0;
            let g1 = transposed(place_all(b, tp));
            let tb = transposed(b);
            let sp = swapped(p);
            assert(tp.drop_last() =~= Seq::<(Pos, Tile)>::empty());
            assert(place_all(b, tp.drop_last()) == b);
            assert(tp.last() == tp[0]);
            assert(place_all(b, tp) == b.update(p, Some(tp[0].1)));
            // the word along the column has a second square, next to the tile
            let a = if s1 < sp {
                sp - 1
            } else {
                sp + 1
            };
            assert(s1 <= a < e1);
            assert(letter_at(g1, a) is Some);
            assert(a / 15 == sp / 15);
            let q = if s1 < sp {
                p - 15
            } else {
                p + 15
            };
            assert(swapped(a) == q) by {
                assert(a % 15 == if s1 < sp {
                    sp % 15 - 1
                } else {
                    sp % 15 + 1
                });
            }
            assert(0 <= q < 225);
            assert(g1[a] == place_all(b, tp)[q]);
            assert(b[q] is Some);
            assert(above_or_below_of(b).contains(p));
            assert(false);
        }
    }
}

/// No play is generated twice: where each tile on the board stands for a
/// letter, plays on the board's empty squares that complete their words
/// first along the columns, then along the rows, with no play repeated
/// among either, place pairwise different tiles or squares.
pub proof fn law_no_play_twice<F: Fsm>(f: &F, b: Seq<Option<Tile>>, rack: Seq<usize>, plays: Seq<GeneratedPlay>, n: int)
    requires
        b.len() == 225,
        forall|i: int| 0 <= i < 225 && #[trigger] b[i] is Some ==> letter_at(b, i) is Some,
        forall|k: int| 0 <= k < plays.len() ==> generated(b, rack, #[trigger] plays[k]),
        columns_then_rows(f, b, plays, n),
        distinct_plays(plays, 0, n),
        distinct_plays(plays, n, plays.len() as int),
    ensures
        distinct_plays(plays, 0, plays.len() as int),
{
    assert forall|i: int, j: int| 0 <= i < j < plays.len() implies (#[trigger] plays[i]).tile_positions@
        != (#[trigger] plays[j]).tile_positions@ by {
        if i < n && n <= j && plays[i].tile_positions@ == plays[j].tile_positions@ {
            let tp = plays[i].tile_positions@;
            assert(generated(b, rack, plays[i]));
            assert forall|k: int| 0 <= k < tp.len() implies 0 <= (#[trigger] tp[k]).0@ < 225 && b[tp[k].0@]
                is None by {
                if b[tp[k].0@] is Some {
                    assert(letter_at(b, tp[k].0@) is Some);
                }
            }
            assert(along(f, b, plays[i], true));
            assert(along(f, b, plays[j], false));
            law_one_line(f, b, plays[i]);
        }
    }
}

/// `plays` are the moves open to `rack` on the board `b`: each places
/// tiles of the rack in a line on squares without a letter and completes a
/// word of the machine along that line, with its values; every play that
/// completes a word from a square with no tile just before it, in the
/// sense of [`completes`], is among them; and those along the columns come
/// first, then those along the rows, neither part repeating a play.
pub open spec fn all_moves<F: Fsm>(f: &F, b: Seq<Option<Tile>>, rack: Seq<usize>, plays: Seq<GeneratedPlay>) -> bool {
    &&& forall|k: int| 0 <= k < plays.len() ==> generated(b, rack, #[trigger] plays[k]) && word_formed(f, b, plays[k])
    &&& forall|v: bool, s: int, sq: Seq<(int, Tile)>, e: int|
        0 <= s < 225 && (s % 15 == 0 || oriented(b, v)[s - 1] is None) && #[trigger] completes(
            f,
            oriented(b, v),
            rack,
            v,
            s,
            sq,
            e,
        ) ==> found(plays, v, sq)
    &&& exists|n: int|
        #[trigger] columns_then_rows(f, b, plays, n) && distinct_plays(plays, 0, n) && distinct_plays(
            plays,
            n,
            plays.len() as int,
        )
}

/// The play completes a word of the machine along its line, and records
/// the values of that word.
pub open spec fn word_formed<F: Fsm>(f: &F, b: Seq<Option<Tile>>, gp: GeneratedPlay) -> bool {
    exists|v: bool, s: int, e: int| #[trigger] forms_word(f, b, gp.tile_positions@, v, s, e) && play_values(
        f,
        b,
        gp,
        v,
        s,
        e,
    )
}

/// A tile placed at or after `b` changes nothing of the old tiles' score
/// before `b`.
proof fn lemma_old_tiles_push(g: Seq<Option<Tile>>, sq: Seq<(int, Tile)>, x: (int, Tile), a: int, b: int)
    requires
        b <= x.0,
    ensures
        old_tiles_score(g, sq.push(x), a, b) == old_tiles_score(g, sq, a, b),
    decreases b - a,
{
    if b > a {
        lemma_old_tiles_push(g, sq, x, a, b - 1);
        let sq2 = sq.push(x);
        if placed_on(sq2, b - 1) {
            let k = choose|k: int| 0 <= k < sq2.len() && #[trigger] sq2[k].0 == b - 1;
            assert(k < sq.len());
            assert(sq[k] == sq2[k]);
            assert(placed_on(sq, b - 1));
        }
        if placed_on(sq, b - 1) {
            let k = choose|k: int| 0 <= k < sq.len() && #[trigger] sq[k].0 == b - 1;
            assert(sq2[k] == sq[k]);
            assert(placed_on(sq2, b - 1));
        }
    }
}

/// The tile of `more` on square `q`.
pub open spec fn tile_on(more: Seq<(int, Tile)>, q: int) -> Tile {
    more[choose|k: int| 0 <= k < more.len() && #[trigger] more[k].0 == q].1
}

/// The letter on square `q` of `g` once the tiles `more` are placed.
pub open spec fn letter_with(g: Seq<Option<Tile>>, more: Seq<(int, Tile)>, q: int) -> Option<Letter> {
    if placed_on(more, q) {
        tile_on(more, q).spec_letter()
    } else {
        letter_at(g, q)
    }
}

/// The letters on squares `a` up to (not including) `b` of `g` once the
/// tiles `more` are placed.
pub open spec fn letters_with(g: Seq<Option<Tile>>, more: Seq<(int, Tile)>, a: int, b: int) -> Seq<Letter> {
    Seq::new((b - a) as nat, |i: int| letter_with(g, more, a + i)->0)
}

/// The tiles of `more`.
pub open spec fn tiles_in(more: Seq<(int, Tile)>) -> Seq<Tile> {
    more.map_values(|x: (int, Tile)| x.1)
}

/// The machine, having followed a word, stopped on a terminal state.
pub open spec fn ends_terminal<F: Fsm>(f: &F, r: Option<StateId>) -> bool {
    match r {
        Some(t) => f.spec_terminal(t),
        None => false,
    }
}

/// The tiles `sq`, given by their squares along the line (the rows of `g`,
/// which is the board laid out, or with rows and columns swapped), make a
/// play from square `s` that ends just before square `e` of the same row:
/// they go, in order, on squares without a letter, and every other square
/// from `s` to before `e` holds a letter; the letters there, read in order,
/// are a word of the machine; the rack holds the tiles; each tile placed
/// just above or below a letter makes an accepted word across the line;
/// the last tile ends the word, with no tile just after it; the word runs
/// through a letter already on the board or has a tile just above or below
/// one; and a play of one tile has none above or below it.
pub open spec fn completes<F: Fsm>(
    f: &F,
    g: Seq<Option<Tile>>,
    rack: Seq<usize>,
    v: bool,
    s: int,
    sq: Seq<(int, Tile)>,
    e: int,
) -> bool {
    let aob = above_or_below_of(g);
    &&& s <= e <= s / 15 * 15 + 15
    &&& forall|k: int|
        0 <= k < sq.len() ==> s <= (#[trigger] sq[k]).0 < e && letter_at(g, sq[k].0) is None
            && sq[k].1.spec_letter() is Some && sq[k].1.index() < 27 && (aob.contains(sq[k].0) ==> vertical_score(
            f,
            g,
            sq[k].0,
            sq[k].1,
        ) is Some)
    &&& forall|a: int, b: int| 0 <= a < b < sq.len() ==> (#[trigger] sq[a]).0 < (#[trigger] sq[b]).0
    &&& forall|q: int| s <= q < e && !placed_on(sq, q) ==> #[trigger] letter_at(g, q) is Some
    &&& ends_terminal(f, run(f, f.spec_initial(), letters_with(g, sq, s, e)))
    &&& forall|i: nat| i < 27 ==> #[trigger] count_in(tiles_in(sq), i) <= rack[i as int]
    &&& sq.len() >= 1
    &&& e - s >= 2
    &&& (e % 15 > 0 ==> g[e] is None)
    &&& (exists|q: int| s <= q < e && #[trigger] letter_at(g, q) is Some) || (exists|k: int|
        0 <= k < sq.len() && aob.contains((#[trigger] sq[k]).0)) || (exists|k: int|
        0 <= k < sq.len() && (#[trigger] sq[k]).0 == 112)
    &&& sq.len() > 1 || v || !aob.contains(sq[0].0)
}

/// Tiles of the 27 kinds that a rack holds are no more than it has.
proof fn lemma_len_le_sum(tiles: Seq<Tile>, rack: Seq<usize>)
    requires
        rack.len() == 27,
        forall|k: int| 0 <= k < tiles.len() ==> (#[trigger] tiles[k]).index() < 27,
        forall|i: nat| i < 27 ==> #[trigger] count_in(tiles, i) <= rack[i as int],
    ensures
        tiles.len() <= sum(rack),
    decreases tiles.len(),
{
    crate::util::tile_counts::lemma_sum_nonneg(rack);
    if tiles.len() > 0 {
        let ti = tiles.last().index();
        let rest = tiles.drop_last();
        assert(tiles.last() == tiles[tiles.len() - 1]);
        assert(count_in(tiles, ti) == count_in(rest, ti) + 1);
        let r2 = rack.update(ti as int, (rack[ti as int] - 1) as usize);
        assert forall|i: nat| i < 27 implies #[trigger] count_in(rest, i) <= r2[i as int] by {
            assert(count_in(tiles, i) <= rack[i as int]);
        }
        assert forall|k: int| 0 <= k < rest.len() implies (#[trigger] rest[k]).index() < 27 by {
            assert(rest[k] == tiles[k]);
        }
        lemma_len_le_sum(rest, r2);
        crate::util::tile_counts::lemma_sum_update(rack, ti as int, r2[ti as int]);
    }
}

/// From the first tile of a play on square `s`, the tiles that follow on
/// the next squares without a gap: the first `j + 1` of them lie on `s` to
/// `s + j`, and none lies on `s + j + 1`.
proof fn lemma_tile_run(sq: Seq<(int, Tile)>, s: int, j: int) -> (r: int)
    requires
        0 <= j < sq.len(),
        forall|i: int| 0 <= i <= j ==> (#[trigger] sq[i]).0 == s + i,
        forall|a: int, b: int| 0 <= a < b < sq.len() ==> (#[trigger] sq[a]).0 < (#[trigger] sq[b]).0,
    ensures
        j <= r < sq.len(),
        forall|i: int| 0 <= i <= r ==> (#[trigger] sq[i]).0 == s + i,
        !placed_on(sq, s + r + 1),
    decreases sq.len() - j,
{
    if j + 1 < sq.len() && sq[j + 1].0 == s + j + 1 {
        lemma_tile_run(sq, s, j + 1)
    } else {
        if placed_on(sq, s + j + 1) {
            let k = choose|k: int| 0 <= k < sq.len() && #[trigger] sq[k].0 == s + j + 1;
            if k <= j {
                assert(sq[k].0 == s + k);
            } else {
                assert(sq[j].0 < sq[j + 1].0);
                if k > j + 1 {
                    assert(sq[j + 1].0 < sq[k].0);
                }
            }
        }
        j
    }
}

/// A play completed from a square with no tile just before it starts on
/// one of the squares from which the generator reads words.
#[verifier::spinoff_prover]
proof fn lemma_start_possible<F: Fsm>(
    f: &F,
    g: Seq<Option<Tile>>,
    rack: Seq<usize>,
    v: bool,
    s: int,
    sq: Seq<(int, Tile)>,
    e: int,
)
    requires
        g.len() == 225,
        rack.len() == 27,
        0 <= s < 225,
        s % 15 == 0 || g[s - 1] is None,
        completes(f, g, rack, v, s, sq, e),
    ensures
        spec_possible_starts(occupied(g), sum(rack)).contains(s),
{
    let occ = occupied(g);
    let aob = above_or_below_of(g);
    assert(occupied(g) =~= Set::new(|i: int| 0 <= i < 225 && g[i] is Some));
    assert(sq.last() == sq[sq.len() - 1]);
    if s % 15 == 14 {
        assert(e <= s + 1);
        assert(false);
    }
    assert(!crate::util::bitboard::east_of(occ).contains(s));
    if g[s] is None {
        assert(letter_at(g, s) is None);
        assert(placed_on(sq, s));
        let k0 = choose|k: int| 0 <= k < sq.len() && #[trigger] sq[k].0 == s;
        if k0 > 0 {
            assert(sq[0].0 < sq[k0].0);
        }
        let j = lemma_tile_run(sq, s, 0);
        assert(sq[j].0 == s + j);
        lemma_len_le_sum(tiles_in(sq), rack);
        assert(j <= sum(rack) - 1);
        let stems = crate::util::bitboard::north_of(occ).union(crate::util::bitboard::south_of(occ)).union(
            west_of(occ),
        ).insert(112);
        let d = if s + j + 1 < e {
            assert(letter_at(g, s + j + 1) is Some);
            assert(occ.contains(s + j + 1));
            assert(west_of(occ).contains(s + j));
            j
        } else {
            assert forall|q: int| s <= q < e implies #[trigger] letter_at(g, q) is None by {
                assert(sq[q - s].0 == q);
            }
            let k = if exists|k: int| 0 <= k < sq.len() && aob.contains((#[trigger] sq[k]).0) {
                choose|k: int| 0 <= k < sq.len() && aob.contains((#[trigger] sq[k]).0)
            } else {
                choose|k: int| 0 <= k < sq.len() && (#[trigger] sq[k]).0 == 112
            };
            if k > j {
                assert(sq[j].0 < sq[k].0);
            }
            assert(sq[k].0 == s + k);
            k
        };
        assert(stems.contains(s + d));
        assert(0 <= d <= sum(rack) - 1 && s % 15 + d <= 14);
        assert(within_west(stems, sum(rack) - 1).contains(s));
    }
}

/// Some play of `plays` places, counted along the line (the rows, or the
/// columns when `vertical`), exactly the tiles `sq`.
pub open spec fn found(plays: Seq<GeneratedPlay>, vertical: bool, sq: Seq<(int, Tile)>) -> bool {
    exists|k: int| 0 <= k < plays.len() && in_line((#[trigger] plays[k]).tile_positions@, vertical) == sq
}

/// A play found in a list is found in any list that keeps it.
proof fn lemma_found_kept(p1: Seq<GeneratedPlay>, p2: Seq<GeneratedPlay>, v: bool, sq: Seq<(int, Tile)>)
    requires
        found(p1, v, sq),
        p1.len() <= p2.len(),
        forall|k: int| 0 <= k < p1.len() ==> #[trigger] p2[k] == p1[k],
    ensures
        found(p2, v, sq),
{
    let k = choose|k: int| 0 <= k < p1.len() && in_line((#[trigger] p1[k]).tile_positions@, v) == sq;
    assert(p2[k] == p1[k]);
}

/// With squares in increasing order, the tile on a square of `more` is the
/// one listed for it.
proof fn lemma_tile_on(more: Seq<(int, Tile)>, k: int)
    requires
        0 <= k < more.len(),
        forall|a: int, b: int| 0 <= a < b < more.len() ==> (#[trigger] more[a]).0 < (#[trigger] more[b]).0,
    ensures
        placed_on(more, more[k].0),
        tile_on(more, more[k].0) == more[k].1,
{
    assert(more[k].0 == more[k].0);
    let j = choose|j: int| 0 <= j < more.len() && #[trigger] more[j].0 == more[k].0;
    if j < k {
        assert(more[j].0 < more[k].0);
    } else if k < j {
        assert(more[k].0 < more[j].0);
    }
}

/// The letters once `more` is placed, from its first square on, are the
/// first tile's letter followed by those once the rest is placed.
proof fn lemma_letters_first(g: Seq<Option<Tile>>, more: Seq<(int, Tile)>, p: int, e: int)
    requires
        more.len() > 0,
        more[0].0 == p,
        p < e,
        forall|a: int, b: int| 0 <= a < b < more.len() ==> (#[trigger] more[a]).0 < (#[trigger] more[b]).0,
    ensures
        letters_with(g, more, p, e) =~= seq![more[0].1.spec_letter()->0] + letters_with(g, more.drop_first(), p + 1, e),
{
    let rest = more.drop_first();
    lemma_tile_on(more, 0);
    assert forall|a: int, b: int| 0 <= a < b < rest.len() implies (#[trigger] rest[a]).0 < (#[trigger] rest[b]).0 by {
        assert(rest[a] == more[a + 1] && rest[b] == more[b + 1]);
    }
    assert forall|q: int| p < q implies #[trigger] letter_with(g, more, q) == letter_with(g, rest, q) by {
        if placed_on(more, q) {
            let k = choose|k: int| 0 <= k < more.len() && #[trigger] more[k].0 == q;
            assert(k > 0);
            lemma_tile_on(more, k);
            assert(rest[k - 1] == more[k]);
            lemma_tile_on(rest, k - 1);
        }
        if placed_on(rest, q) {
            let k = choose|k: int| 0 <= k < rest.len() && #[trigger] rest[k].0 == q;
            assert(rest[k] == more[k + 1]);
            assert(more[k + 1].0 == q);
        }
    }
    let l1 = letters_with(g, more, p, e);
    let l2 = seq![more[0].1.spec_letter()->0] + letters_with(g, rest, p + 1, e);
    assert forall|i: int| 0 <= i < l1.len() implies l1[i] == l2[i] by {
        if i > 0 {
            assert(letter_with(g, more, p + i) == letter_with(g, rest, p + i));
        }
    }
}

/// The letters once `more` is placed, from a square without a tile of it,
/// are the letter there followed by the rest.
proof fn lemma_letters_read(g: Seq<Option<Tile>>, more: Seq<(int, Tile)>, p: int, e: int)
    requires
        !placed_on(more, p),
        p < e,
    ensures
        letters_with(g, more, p, e) =~= seq![letter_at(g, p)->0] + letters_with(g, more, p + 1, e),
{
}

/// Counting tiles: the first, then the rest.
proof fn lemma_count_in_first(tiles: Seq<Tile>, i: nat)
    requires
        tiles.len() > 0,
    ensures
        count_in(tiles, i) == count_in(tiles.drop_first(), i) + if tiles[0].index() == i {
            1nat
        } else {
            0nat
        },
    decreases tiles.len(),
{
    let df = tiles.drop_first();
    if tiles.len() > 1 {
        lemma_count_in_first(tiles.drop_last(), i);
        assert(tiles.drop_last().drop_first() =~= df.drop_last());
        assert(tiles.drop_last()[0] == tiles[0]);
        assert(df.last() == tiles.last());
        assert(count_in(df, i) == count_in(df.drop_last(), i) + if df.last().index() == i {
            1nat
        } else {
            0nat
        });
    } else {
        assert(df.len() == 0);
        assert(count_in(df, i) == 0);
        assert(tiles.drop_last().len() == 0);
        assert(count_in(tiles.drop_last(), i) == 0);
        assert(tiles.last() == tiles[0]);
    }
}

/// Placing tiles and then swapping rows and columns is swapping first and
/// placing each tile on the swapped square.
proof fn lemma_transposed_place(b: Seq<Option<Tile>>, tp: Seq<(Pos, Tile)>, st: Seq<(Pos, Tile)>)
    requires
        b.len() == 225,
        st.len() == tp.len(),
        forall|k: int| 0 <= k < tp.len() ==> 0 <= (#[trigger] tp[k]).0@ < 225 && st[k].1 == tp[k].1
            && st[k].0@ == swapped(tp[k].0@),
    ensures
        transposed(place_all(b, tp)) == place_all(transposed(b), st),
    decreases tp.len(),
{
    if tp.len() > 0 {
        let (d, ds) = (tp.drop_last(), st.drop_last());
        assert forall|k: int| 0 <= k < d.len() implies 0 <= (#[trigger] d[k]).0@ < 225 && ds[k].1 == d[k].1
            && ds[k].0@ == swapped(d[k].0@) by {
            assert(d[k] == tp[k] && ds[k] == st[k]);
        }
        lemma_transposed_place(b, d, ds);
        lemma_place_len(b, d);
        assert forall|k: int| 0 <= k < ds.len() implies 0 <= (#[trigger] ds[k]).0@ < 225 by {
            crate::game::board::lemma_swapped(d[k].0@);
        }
        let x = tp.last().0@;
        assert(tp.last() == tp[tp.len() - 1] && st.last() == st[st.len() - 1]);
        crate::game::board::lemma_swapped(x);
        let lhs = transposed(place_all(b, tp));
        let rhs = place_all(transposed(b), st);
        lemma_place_len(transposed(b), ds);
        assert forall|j: int| 0 <= j < 225 implies lhs[j] == rhs[j] by {
            crate::game::board::lemma_swapped(j);
        }
        assert(lhs =~= rhs);
    }
}

/// Placing tiles keeps the length.
proof fn lemma_place_len(g: Seq<Option<Tile>>, tp: Seq<(Pos, Tile)>)
    requires
        forall|k: int| 0 <= k < tp.len() ==> 0 <= (#[trigger] tp[k]).0@ < g.len(),
    ensures
        place_all(g, tp).len() == g.len(),
    decreases tp.len(),
{
    if tp.len() > 0 {
        assert forall|k: int| 0 <= k < tp.len() - 1 implies 0 <= (#[trigger] tp.drop_last()[k]).0@ < g.len() by {
            assert(tp.drop_last()[k] == tp[k]);
        }
        lemma_place_len(g, tp.drop_last());
        assert(tp.last() == tp[tp.len() - 1]);
    }
}

/// Squares that no tile names keep what they held.
proof fn lemma_place_other(g: Seq<Option<Tile>>, tp: Seq<(Pos, Tile)>, q: int)
    requires
        0 <= q < g.len(),
        forall|k: int| 0 <= k < tp.len() ==> 0 <= (#[trigger] tp[k]).0@ < g.len() && tp[k].0@ != q,
    ensures
        place_all(g, tp)[q] == g[q],
    decreases tp.len(),
{
    if tp.len() > 0 {
        assert forall|k: int| 0 <= k < tp.len() - 1 implies 0 <= (#[trigger] tp.drop_last()[k]).0@ < g.len()
            && tp.drop_last()[k].0@ != q by {
            assert(tp.drop_last()[k] == tp[k]);
        }
        lemma_place_other(g, tp.drop_last(), q);
        lemma_place_len(g, tp.drop_last());
        assert(tp.last() == tp[tp.len() - 1]);
    }
}

/// The squares of `b` as the generator reads them: as laid out, or with
/// rows and columns swapped.
pub open spec fn oriented(b: Seq<Option<Tile>>, vertical: bool) -> Seq<Option<Tile>> {
    if vertical {
        transposed(b)
    } else {
        b
    }
}

/// The board square of square `q` of the oriented grid.
pub open spec fn board_pos(q: int, vertical: bool) -> int {
    if vertical {
        swapped(q)
    } else {
        q
    }
}

/// Where the word read so far ends: before `pos`, or at the end of row
/// `row`.
spec fn end_of(pos: Option<Pos>, row: int) -> int {
    match pos {
        Some(p) => p@,
        None => row * 15 + 15,
    }
}

/// The measure of progress along a row.
spec fn pos_measure(pos: Option<Pos>) -> nat {
    match pos {
        Some(p) => (15 - p@ % 15) as nat,
        None => 0,
    }
}

/// The running state of a word being generated.
struct WordState {
    state: StateId,
    score: usize,
    cross_count: usize,
    len: usize,
    multiplier: usize,
    cross: usize,
    connected: bool,
}

/// Generates moves for a position.
struct MoveGen<'a, 'b, F> {
    fsm: &'a F,
    grid: &'b Grid,
    lookup: Lookup,
    occ: BitBoard,
    stack: Vec<(Pos, Tile)>,
    counts: TileCounts,
    vertical: bool,
    board: Ghost<Seq<Option<Tile>>>,
    rack: Ghost<Seq<usize>>,
    total: Ghost<int>,
}

impl<'a, 'b, F: Fsm> MoveGen<'a, 'b, F> {
    /// The generator is consistent: the rack is split between the tiles
    /// still held and those placed, which lie in order along one row on
    /// squares without a letter.
    spec fn inv(&self, row: int) -> bool {
        &&& self.lookup.wf()
        &&& self.grid@.len() == 225
        &&& self.grid@ == oriented(self.board@, self.vertical)
        &&& self.board@.len() == 225
        &&& self.rack@.len() == 27
        &&& self.counts@.len() == 27
        &&& forall|i: int| 0 <= i < 27 ==> #[trigger] self.counts@[i] + count_in(tiles_of(self.stack@), i as nat)
            == self.rack@[i]
        &&& self.stack@.len() + self.counts.spec_len() == self.total@
        &&& self.total@ <= 7
        &&& 0 <= row < 15
        &&& forall|k: int| 0 <= k < self.stack@.len() ==> 0 <= (#[trigger] self.stack@[k]).0@ < 225
            && self.stack@[k].0@ / 15 == row && letter_at(self.grid@, self.stack@[k].0@) is None
            && self.stack@[k].1.spec_letter() is Some
        &&& forall|a: int, b: int| 0 <= a < b < self.stack@.len() ==> (#[trigger] self.stack@[a]).0@
            < (#[trigger] self.stack@[b]).0@
        &&& forall|i: int| 0 <= i < 225 ==> (#[trigger] self.grid@[i] is Some <==> self.occ@.contains(i))
        &&& self.lookup.spec_above_or_below() == above_or_below_of(self.grid@)
        &&& forall|p: int, k: int| 0 <= p < 225 && 0 <= k < 52 ==> opt_int(#[trigger] self.lookup.spec_table(p, k))
            == spec_entry(self.fsm, self.grid@, self.rack@, p, k)
        &&& forall|k: int| 0 <= k < self.stack@.len() ==> cross_word_ok(self.fsm, self.grid@, (#[trigger] self.stack@[k]).0@, self.stack@[k].1)
    }

    /// The word from `start` up to `end` runs through a square that already
    /// held a letter, or a placed tile lies just above or below a tile.
    spec fn touches(&self, start: int, end: int) -> bool {
        ||| exists|q: int| start <= q < end && #[trigger] letter_at(self.grid@, q) is Some
        ||| exists|k: int|
            0 <= k < self.stack@.len() && above_or_below_of(self.grid@).contains((#[trigger] self.stack@[k]).0@)
        ||| exists|k: int| 0 <= k < self.stack@.len() && (#[trigger] self.stack@[k]).0@ == 112
    }

    /// The running values of the word from `start` up to `end`: its length,
    /// its score so far before word multipliers, the product of the word
    /// multipliers, and how many placed tiles make a scoring word across.
    spec fn values_so_far(&self, start: int, end: int, ws: &WordState) -> bool {
        let sq = in_line(self.stack@, false);
        &&& ws.len == end - start
        &&& ws.score == old_tiles_score(self.grid@, sq, start, end) + new_tiles_score(sq)
        &&& ws.cross == cross_total(self.fsm, self.grid@, sq)
        &&& ws.multiplier == word_multiplier(sq)
        &&& ws.cross_count == cross_count_of(self.fsm, self.grid@, sq)
    }

    /// `more` and `e` finish a play from here: reading on from square `pos`
    /// of row `row` with the machine in `state`, the tiles `more` go, in
    /// order, on squares without a letter from `pos` to before `e`, and
    /// every other square there holds a letter; the letters lead the
    /// machine to a terminal state; the tiles still held include them; each
    /// makes an accepted word across the line where it touches a tile
    /// there; the last tile placed ends the word, with no tile just after
    /// it; the play touches the board (already `connected`, or through a
    /// letter on the way, or by a tile next to one across the line); and a
    /// play of one tile touches nothing across the line.
    spec fn finishes(&self, row: int, start: int, pos: int, state: StateId, connected: bool, more: Seq<(int, Tile)>, e: int) -> bool {
        let g = self.grid@;
        let n = self.stack@.len() + more.len();
        let last = if more.len() > 0 {
            more.last().0
        } else {
            self.stack@.last().0@
        };
        &&& pos <= e <= row * 15 + 15
        &&& forall|k: int|
            0 <= k < more.len() ==> pos <= (#[trigger] more[k]).0 < e && letter_at(g, more[k].0) is None
                && more[k].1.spec_letter() is Some && (above_or_below_of(g).contains(more[k].0) ==> vertical_score(
                self.fsm,
                g,
                more[k].0,
                more[k].1,
            ) is Some)
        &&& forall|a: int, b: int| 0 <= a < b < more.len() ==> (#[trigger] more[a]).0 < (#[trigger] more[b]).0
        &&& forall|q: int| pos <= q < e && !placed_on(more, q) ==> #[trigger] letter_at(g, q) is Some
        &&& ends_terminal(self.fsm, run(self.fsm, state, letters_with(g, more, pos, e)))
        &&& forall|i: nat| i < 27 ==> #[trigger] count_in(tiles_in(more), i) <= self.counts@[i as int]
        &&& n >= 1
        &&& e - start >= 2
        &&& (e % 15 > 0 ==> g[e] is None)
        &&& connected || (exists|q: int| pos <= q < e && #[trigger] letter_at(g, q) is Some) || (exists|k: int|
            0 <= k < more.len() && above_or_below_of(g).contains((#[trigger] more[k]).0)) || (exists|k: int|
            0 <= k < more.len() && (#[trigger] more[k]).0 == 112)
        &&& n > 1 || self.vertical || !above_or_below_of(g).contains(last)
    }

    /// With no tile placed yet and every tile of the rack held, a play
    /// completed from a square is finished from there, starting from the
    /// machine's initial state.
    proof fn lemma_finishes_start(&self, s: int, more: Seq<(int, Tile)>, e: int)
        requires
            self.stack@.len() == 0,
            self.counts@ == self.rack@,
        ensures
            self.finishes(s / 15, s, s, self.fsm.spec_initial(), false, more, e) <== completes(
                self.fsm,
                self.grid@,
                self.rack@,
                self.vertical,
                s,
                more,
                e,
            ),
    {
    }

    /// A play finished from `end` that ends no later places nothing more.
    proof fn lemma_finishes_here(&self, row: int, start: int, end: int, state: StateId, connected: bool, more: Seq<(int, Tile)>, e: int)
        requires
            self.finishes(row, start, end, state, connected, more, e),
            e <= end,
        ensures
            e == end,
            more == Seq::<(int, Tile)>::empty(),
    {
        if more.len() > 0 {
            assert(end <= more[0].0 < e);
        }
        assert(more =~= Seq::<(int, Tile)>::empty());
    }

    /// Reading past a square that holds the letter `l`: a play finished
    /// from before it is finished from after it, touching the board.
    proof fn lemma_finishes_read(
        &self,
        row: int,
        start: int,
        p: int,
        state: StateId,
        connected: bool,
        l: Letter,
        more: Seq<(int, Tile)>,
        e: int,
    )
        requires
            self.finishes(row, start, p, state, connected, more, e),
            p < e,
            letter_at(self.grid@, p) == Some(l),
        ensures
            self.fsm.spec_step(state, l) is Some,
            self.finishes(row, start, p + 1, self.fsm.spec_step(state, l)->0, true, more, e),
    {
        let g = self.grid@;
        assert(!placed_on(more, p)) by {
            if placed_on(more, p) {
                let k = choose|k: int| 0 <= k < more.len() && #[trigger] more[k].0 == p;
                assert(letter_at(g, more[k].0) is None);
            }
        }
        lemma_letters_read(g, more, p, e);
        let w = letters_with(g, more, p, e);
        crate::util::fsm::lemma_run_first(self.fsm, state, w);
        assert(w[0] == l);
        assert(w.drop_first() =~= letters_with(g, more, p + 1, e));
        assert forall|k: int| 0 <= k < more.len() implies p + 1 <= (#[trigger] more[k]).0 by {
            if more[k].0 == p {
                assert(placed_on(more, p));
            }
        }
        assert(exists|q: int| p + 1 <= q < e && #[trigger] letter_at(g, q) is Some || true);
    }

    /// A play finished from an empty square puts its first tile there,
    /// with a letter the machine can take.
    proof fn lemma_finishes_first(&self, row: int, start: int, p: int, state: StateId, connected: bool, more: Seq<(int, Tile)>, e: int)
        requires
            self.finishes(row, start, p, state, connected, more, e),
            p < e,
            letter_at(self.grid@, p) is None,
        ensures
            more.len() > 0,
            more[0].0 == p,
            more[0].1.spec_letter() is Some,
            self.fsm.spec_step(state, more[0].1.spec_letter()->0) is Some,
    {
        let g = self.grid@;
        assert(placed_on(more, p));
        let k = choose|k: int| 0 <= k < more.len() && #[trigger] more[k].0 == p;
        if k > 0 {
            assert(more[0].0 < more[k].0);
            assert(p <= more[0].0);
        }
        lemma_letters_first(g, more, p, e);
        let w = letters_with(g, more, p, e);
        crate::util::fsm::lemma_run_first(self.fsm, state, w);
    }

    /// Placing the first tile of a finished play: what is left of it is a
    /// play finished from the next square, with the tile placed and no
    /// longer held.
    proof fn lemma_finishes_place(
        &self,
        after: &Self,
        row: int,
        start: int,
        p: int,
        state: StateId,
        connected: bool,
        tile: Tile,
        next: StateId,
        more: Seq<(int, Tile)>,
        e: int,
    )
        requires
            self.finishes(row, start, p, state, connected, more, e),
            more.len() > 0,
            more[0] == (p, tile),
            0 <= p < 225,
            letter_at(self.grid@, p) is None,
            self.fsm.spec_step(state, tile.spec_letter()->0) == Some(next),
            after.grid == self.grid,
            after.fsm == self.fsm,
            after.vertical == self.vertical,
            after.stack@ == self.stack@.push((Pos::at(p), tile)),
            tile.index() < 27,
            self.counts@.len() == 27,
            self.counts@[tile.index() as int] >= 1,
            after.counts@ == self.counts@.update(tile.index() as int, (self.counts@[tile.index() as int] - 1) as usize),
        ensures
            after.finishes(
                row,
                start,
                p + 1,
                next,
                connected || above_or_below_of(self.grid@).contains(p) || p == 112,
                more.drop_first(),
                e,
            ),
    {
        let g = self.grid@;
        let rest = more.drop_first();
        lemma_letters_first(g, more, p, e);
        let w = letters_with(g, more, p, e);
        crate::util::fsm::lemma_run_first(self.fsm, state, w);
        assert(w.drop_first() =~= letters_with(g, rest, p + 1, e));
        assert forall|k: int| 0 <= k < rest.len() implies p + 1 <= (#[trigger] rest[k]).0 < e && letter_at(
            g,
            rest[k].0,
        ) is None && rest[k].1.spec_letter() is Some && (above_or_below_of(g).contains(rest[k].0) ==> vertical_score(
            self.fsm,
            g,
            rest[k].0,
            rest[k].1,
        ) is Some) by {
            assert(rest[k] == more[k + 1]);
            assert(more[0].0 < more[k + 1].0);
        }
        assert forall|a: int, b: int| 0 <= a < b < rest.len() implies (#[trigger] rest[a]).0 < (#[trigger] rest[b]).0 by {
            assert(rest[a] == more[a + 1] && rest[b] == more[b + 1]);
        }
        assert forall|q: int| p + 1 <= q < e && !placed_on(rest, q) implies #[trigger] letter_at(g, q) is Some by {
            if placed_on(more, q) {
                let k = choose|k: int| 0 <= k < more.len() && #[trigger] more[k].0 == q;
                assert(k > 0);
                assert(rest[k - 1] == more[k]);
            }
        }
        assert(tiles_in(more).drop_first() =~= tiles_in(rest));
        assert forall|i: nat| i < 27 implies #[trigger] count_in(tiles_in(rest), i) <= after.counts@[i as int] by {
            lemma_count_in_first(tiles_in(more), i);
            assert(tiles_in(more)[0] == tile);
        }
        if rest.len() > 0 {
            assert(rest.last() == more.last());
        } else {
            assert(more.len() == 1);
            assert(more.last() == more[0]);
            assert(after.stack@.last() == (Pos::at(p), tile));
            assert(Pos::at(p)@ == p);
            assert(after.stack@.last().0@ == p);
        }
        if !(connected || above_or_below_of(g).contains(p) || p == 112) {
            if exists|q: int| p <= q < e && #[trigger] letter_at(g, q) is Some {
                let q = choose|q: int| p <= q < e && #[trigger] letter_at(g, q) is Some;
                assert(q != p);
                assert(p + 1 <= q < e && letter_at(g, q) is Some);
            } else if exists|k: int| 0 <= k < more.len() && above_or_below_of(g).contains((#[trigger] more[k]).0) {
                let k = choose|k: int| 0 <= k < more.len() && above_or_below_of(g).contains((#[trigger] more[k]).0);
                assert(k != 0);
                assert(rest[k - 1] == more[k]);
                assert(above_or_below_of(g).contains(rest[k - 1].0));
            } else {
                let k = choose|k: int| 0 <= k < more.len() && (#[trigger] more[k]).0 == 112;
                assert(k != 0);
                assert(rest[k - 1] == more[k]);
                assert(rest[k - 1].0 == 112);
            }
        }
    }

    /// A play finished from square `p` whose first tile `tile` goes there
    /// uses a tile still held, which the table of tiles across the line
    /// admits on that square.
    proof fn lemma_finishes_held(
        &self,
        row: int,
        start: int,
        p: int,
        state: StateId,
        connected: bool,
        tile: Tile,
        more: Seq<(int, Tile)>,
        e: int,
    )
        requires
            self.inv(row),
            self.finishes(row, start, p, state, connected, more, e),
            more.len() > 0,
            more[0] == (p, tile),
            0 <= p < 225,
            tile.spec_letter() is Some,
            tile.spec_letter()->0.index() < 26,
        ensures
            self.counts@[tile.index() as int] > 0,
            self.lookup.spec_above_or_below().contains(p) ==> self.lookup.spec_table(p, key_of(tile)->0) is Some,
    {
        let ti = tile.index();
        lemma_count_in_first(tiles_in(more), ti);
        assert(tiles_in(more)[0] == tile);
        assert(count_in(tiles_in(more), ti) <= self.counts@[ti as int]);
        assert(self.counts@[ti as int] + count_in(tiles_of(self.stack@), ti) == self.rack@[ti as int]);
        if self.lookup.spec_above_or_below().contains(p) {
            let k = key_of(tile)->0;
            match tile {
                Tile::Letter(l) => {
                    crate::game::tile::Letter::lemma_index_determines(l);
                },
                Tile::Blank(o) => {
                    crate::game::tile::Letter::lemma_index_determines(o->0);
                },
            }
            assert(tile_of_key(k) == tile);
            assert(opt_int(self.lookup.spec_table(p, k)) == spec_entry(self.fsm, self.grid@, self.rack@, p, k));
            reveal(spec_entry);
        }
    }

    /// Placing `tile` on the empty square `p` of the row, after the tiles
    /// placed so far, keeps the generator consistent.
    proof fn lemma_pushed(&self, after: &Self, row: int, p: int, tile: Tile)
        requires
            self.inv(row),
            after.same_setup(self),
            after.stack@ == self.stack@.push((Pos::at(p), tile)),
            tile.index() < 27,
            self.counts@[tile.index() as int] >= 1,
            after.counts@ == self.counts@.update(tile.index() as int, (self.counts@[tile.index() as int] - 1) as usize),
            after.counts.spec_len() == self.counts.spec_len() - 1,
            0 <= p < 225,
            p / 15 == row,
            letter_at(self.grid@, p) is None,
            tile.spec_letter() is Some,
            cross_word_ok(self.fsm, self.grid@, p, tile),
            forall|k: int| 0 <= k < self.stack@.len() ==> (#[trigger] self.stack@[k]).0@ < p,
        ensures
            after.inv(row),
    {
        assert(Pos::at(p)@ == p);
        assert(tiles_of(after.stack@) =~= tiles_of(self.stack@).push(tile));
        assert forall|i: int| 0 <= i < 27 implies #[trigger] after.counts@[i] + count_in(tiles_of(after.stack@), i as nat)
            == after.rack@[i] by {
            crate::util::tile_counts::lemma_count_in_push(tiles_of(self.stack@), tile, i as nat);
            assert(self.counts@[i] + count_in(tiles_of(self.stack@), i as nat) == self.rack@[i]);
            if i == tile.index() {
                assert(after.counts@[i] == self.counts@[i] - 1);
            } else {
                assert(after.counts@[i] == self.counts@[i]);
            }
        }
        assert forall|k: int| 0 <= k < after.stack@.len() implies 0 <= (#[trigger] after.stack@[k]).0@ < 225
            && after.stack@[k].0@ / 15 == row && letter_at(after.grid@, after.stack@[k].0@) is None
            && after.stack@[k].1.spec_letter() is Some by {
            if k < self.stack@.len() {
                assert(after.stack@[k] == self.stack@[k]);
            }
        }
        assert forall|a: int, b: int| 0 <= a < b < after.stack@.len() implies (#[trigger] after.stack@[a]).0@
            < (#[trigger] after.stack@[b]).0@ by {
            assert(after.stack@[a] == self.stack@[a]);
            if b < self.stack@.len() {
                assert(after.stack@[b] == self.stack@[b]);
            }
        }
        assert forall|k: int| 0 <= k < after.stack@.len() implies cross_word_ok(
            after.fsm,
            after.grid@,
            (#[trigger] after.stack@[k]).0@,
            after.stack@[k].1,
        ) by {
            if k < self.stack@.len() {
                assert(after.stack@[k] == self.stack@[k]);
            }
        }
    }

    /// Placing `tile` on the empty square `p`, just after the word so far
    /// (the result being `after`), carries on whether the word touches the
    /// board and its running values.
    proof fn lemma_step_values(
        &self,
        after: &Self,
        start: int,
        p: int,
        tile: Tile,
        tm: int,
        ps: int,
        ws: &WordState,
        ws2: &WordState,
    )
        requires
            after.grid == self.grid,
            after.fsm == self.fsm,
            after.stack@ == self.stack@.push((Pos::at(p), tile)),
            0 <= p < 225,
            ws.connected ==> self.touches(start, p),
            ws2.connected == (ws.connected || above_or_below_of(self.grid@).contains(p) || p == 112),
            self.values_so_far(start, p, ws),
            tm == multipliers_at(p).0,
            ps == cross_score(self.fsm, self.grid@, p, tile),
            ws2.score == ws.score + tm * tile.spec_score(),
            ws2.cross == ws.cross + ps,
            ws2.len == ws.len + 1,
            ws2.multiplier == ws.multiplier * multipliers_at(p).1,
            ws2.cross_count == ws.cross_count + if ps > 0 {
                1int
            } else {
                0int
            },
        ensures
            ws2.connected ==> after.touches(start, p + 1),
            after.values_so_far(start, p + 1, ws2),
    {
        assert(Pos::at(p)@ == p);
        let sc = tile.spec_score();
        if ws2.connected {
            if ws.connected {
                assert(self.touches(start, p));
                if exists|q: int| start <= q < p && #[trigger] letter_at(self.grid@, q) is Some {
                    let q = choose|q: int| start <= q < p && #[trigger] letter_at(self.grid@, q) is Some;
                    assert(start <= q < p + 1 && letter_at(after.grid@, q) is Some);
                } else if exists|k: int|
                    0 <= k < self.stack@.len() && above_or_below_of(self.grid@).contains(
                        (#[trigger] self.stack@[k]).0@,
                    ) {
                    let k = choose|k: int|
                        0 <= k < self.stack@.len() && above_or_below_of(self.grid@).contains(
                            (#[trigger] self.stack@[k]).0@,
                        );
                    assert(after.stack@[k] == self.stack@[k]);
                } else {
                    let k = choose|k: int| 0 <= k < self.stack@.len() && (#[trigger] self.stack@[k]).0@ == 112;
                    assert(after.stack@[k] == self.stack@[k]);
                }
            } else {
                let k = after.stack@.len() - 1;
                assert(after.stack@[k].0@ == p);
                if p != 112 {
                    assert(above_or_below_of(after.grid@).contains(after.stack@[k].0@));
                }
            }
            assert(after.touches(start, p + 1));
        }
        let sq = in_line(self.stack@, false);
        let sq2 = in_line(after.stack@, false);
        assert(sq2 =~= sq.push((p, tile)));
        lemma_old_tiles_push(after.grid@, sq, (p, tile), start, p);
        assert(sq2[sq2.len() - 1].0 == p);
        assert(placed_on(sq2, p));
        assert(sq2.drop_last() =~= sq);
        assert(old_tiles_score(after.grid@, sq2, start, p + 1) == old_tiles_score(after.grid@, sq, start, p));
        assert(new_tiles_score(sq2) == new_tiles_score(sq) + tm * sc);
        assert(cross_total(after.fsm, after.grid@, sq2) == cross_total(after.fsm, after.grid@, sq) + ps);
        assert(after.values_so_far(start, p + 1, ws2));
    }

    /// The squares from `start` up to `end` of row `row`, with the placed
    /// tiles on them, hold letters that lead the machine from its initial
    /// state to `state`; no letter lies just before `start`; and the placed
    /// tiles lie in between.
    spec fn word_so_far(&self, row: int, start: int, end: int, state: StateId) -> bool {
        let pg = place_all(self.grid@, self.stack@);
        &&& start / 15 == row
        &&& 0 <= start <= end <= row * 15 + 15
        &&& (start % 15 > 0 ==> letter_at(self.grid@, start - 1) is None)
        &&& forall|k: int| 0 <= k < self.stack@.len() ==> start <= (#[trigger] self.stack@[k]).0@ < end
        &&& forall|q: int| start <= q < end ==> #[trigger] letter_at(pg, q) is Some
        &&& run(self.fsm, self.fsm.spec_initial(), letters_between(pg, start, end)) == Some(state)
    }

    /// `other` differs from `self` at most in its held tiles and placed
    /// stack.
    spec fn same_setup(&self, other: &Self) -> bool {
        &&& self.fsm == other.fsm
        &&& self.grid == other.grid
        &&& self.lookup == other.lookup
        &&& self.occ == other.occ
        &&& self.vertical == other.vertical
        &&& self.board == other.board
        &&& self.rack == other.rack
        &&& self.total == other.total
    }

    /// Every play of `plays` is a generated play of the board and rack.
    spec fn plays_ok(&self, plays: Seq<GeneratedPlay>) -> bool {
        forall|k: int| 0 <= k < plays.len() ==> generated(self.board@, self.rack@, #[trigger] plays[k])
            && word_formed(self.fsm, self.board@, plays[k])
    }
}

/// The word so far is worth at most 30 per square along the line, and the
/// words across it at most 930 per square.
spec fn ws_ok<F: Fsm>(fsm: &F, ws: &WordState, pos: Option<Pos>, stack_len: nat) -> bool {
    &&& fsm.spec_valid(ws.state)
    &&& ws.len <= 15
    &&& ws.score <= 30 * ws.len
    &&& ws.cross <= 930 * ws.len
    &&& ws.cross_count <= ws.len
    &&& 1 <= ws.multiplier <= pow3(stack_len)
    &&& (pos matches Some(p) ==> ws.len <= p@ % 15)
}

impl<'a, 'b, F: Fsm> MoveGen<'a, 'b, F> {
    /// Reading the letter `l` of the tile already on square `p` carries the
    /// word one square on.
    proof fn lemma_read_on(&self, row: int, start: int, p: int, state: StateId, l: Letter, next: StateId)
        requires
            self.inv(row),
            self.word_so_far(row, start, p, state),
            letter_at(self.grid@, p) == Some(l),
            0 <= p < 225,
            p / 15 == row,
            forall|k: int| 0 <= k < self.stack@.len() ==> (#[trigger] self.stack@[k]).0@ < p,
            self.fsm.spec_step(state, l) == Some(next),
        ensures
            self.word_so_far(row, start, p + 1, next),
    {
        let st = self.stack@;
        let pg = place_all(self.grid@, st);
        assert forall|k: int| 0 <= k < st.len() implies 0 <= (#[trigger] st[k]).0@ < self.grid@.len() && st[k].0@
            != p by {}
        lemma_place_other(self.grid@, st, p);
        let w = letters_between(pg, start, p);
        assert(letters_between(pg, start, p + 1) =~= w.push(l));
        assert(w.push(l).drop_last() =~= w);
    }

    /// Placing `tile` on the empty square `p` after the placed tiles (the
    /// result being `after`) carries the word one square on.
    proof fn lemma_place_on(&self, after: &Self, row: int, start: int, p: int, state: StateId, tile: Tile, next: StateId)
        requires
            self.inv(row),
            self.word_so_far(row, start, p, state),
            after.grid == self.grid,
            after.fsm == self.fsm,
            after.stack@ == self.stack@.push((Pos::at(p), tile)),
            0 <= p < 225,
            p / 15 == row,
            forall|k: int| 0 <= k < self.stack@.len() ==> (#[trigger] self.stack@[k]).0@ < p,
            tile.spec_letter() is Some,
            self.fsm.spec_step(state, tile.spec_letter()->0) == Some(next),
        ensures
            after.word_so_far(row, start, p + 1, next),
    {
        let st = self.stack@;
        let st2 = after.stack@;
        let pg = place_all(self.grid@, st);
        let pg2 = place_all(self.grid@, st2);
        lemma_place_len(self.grid@, st);
        assert(st2.drop_last() =~= st);
        assert(Pos::at(p)@ == p);
        assert(pg2 == pg.update(p, Some(tile)));
        let l = tile.spec_letter()->0;
        let w = letters_between(pg, start, p);
        assert(letters_between(pg2, start, p + 1) =~= w.push(l));
        assert(w.push(l).drop_last() =~= w);
        assert forall|k: int| 0 <= k < st2.len() implies start <= (#[trigger] st2[k]).0@ < p + 1 by {
            if k < st.len() {
                assert(st2[k] == st[k]);
            }
        }
        assert forall|q: int| start <= q < p + 1 implies #[trigger] letter_at(pg2, q) is Some by {
            if q < p {
                assert(letter_at(pg, q) is Some);
                assert(pg2[q] == pg[q]);
            }
        }
        assert(run(self.fsm, self.fsm.spec_initial(), letters_between(pg2, start, p + 1)) == Some(next));
    }

    /// The play made of the placed tiles, put back on the board's squares,
    /// completes the word read from `start` to the last placed tile.
    proof fn lemma_word_formed(&self, gp: &GeneratedPlay, row: int, start: int, end: int, ws: &WordState)
        requires
            self.inv(row),
            self.stack@.len() >= 1,
            self.word_so_far(row, start, end, ws.state),
            self.fsm.spec_terminal(ws.state),
            end % 15 > 0 ==> letter_at(self.grid@, end) is None,
            end - start >= 2,
            self.touches(start, end),
            self.stack@.len() > 1 || self.vertical || !above_or_below_of(self.grid@).contains(self.stack@[0].0@),
            self.values_so_far(start, end, ws),
            gp.score == ws.score * ws.multiplier + ws.cross + if self.stack@.len() == 7 {
                50int
            } else {
                0int
            },
            gp.len == ws.len,
            gp.cross_count == ws.cross_count,
            gp.tile_positions@.len() == self.stack@.len(),
            forall|k: int| 0 <= k < self.stack@.len() ==> (#[trigger] gp.tile_positions@[k]).1 == self.stack@[k].1
                && gp.tile_positions@[k].0@ == board_pos(self.stack@[k].0@, self.vertical),
        ensures
            forms_word(self.fsm, self.board@, gp.tile_positions@, self.vertical, start, end),
            word_formed(self.fsm, self.board@, *gp),
    {
        let tp = gp.tile_positions@;
        let st = self.stack@;
        let b = self.board@;
        let n = st.len();
        let e = end;
        assert(st.last() == st[n - 1] && tp.last() == tp[n - 1]);
        let pg = place_all(self.grid@, st);
        assert forall|k: int| 0 <= k < n implies 0 <= (#[trigger] tp[k]).0@ < 225 by {
            crate::game::board::lemma_swapped(st[k].0@);
        }
        if self.vertical {
            assert forall|k: int| 0 <= k < n implies 0 <= (#[trigger] tp[k]).0@ < 225 && st[k].1 == tp[k].1
                && st[k].0@ == swapped(tp[k].0@) by {
                crate::game::board::lemma_swapped(st[k].0@);
            }
            lemma_transposed_place(b, tp, st);
            crate::game::board::lemma_swapped(st[n - 1].0@);
            crate::game::board::lemma_swapped(st[0].0@);
        } else {
            assert(tp =~= st) by {
                assert forall|k: int| 0 <= k < n implies tp[k] == st[k] by {
                    assert(tp[k].0@ == st[k].0@);
                    crate::util::pos::Pos::lemma_at_view(tp[k].0);
                    crate::util::pos::Pos::lemma_at_view(st[k].0);
                }
            }
        }
        let g = oriented(place_all(b, tp), self.vertical);
        assert(g == pg);
        lemma_place_len(self.grid@, st);
        if start % 15 > 0 {
            assert forall|k: int| 0 <= k < n implies 0 <= (#[trigger] st[k]).0@ < self.grid@.len()
                && st[k].0@ != start - 1 by {}
            lemma_place_other(self.grid@, st, start - 1);
        }
        if e % 15 > 0 {
            assert forall|k: int| 0 <= k < n implies 0 <= (#[trigger] st[k]).0@ < self.grid@.len() && st[k].0@
                != e by {}
            lemma_place_other(self.grid@, st, e);
        }
        assert(oriented(b, self.vertical) == self.grid@);
        assert forall|k: int| 0 <= k < n implies board_pos((#[trigger] tp[k]).0@, self.vertical) == st[k].0@ by {
            crate::game::board::lemma_swapped(st[k].0@);
        }
        if exists|k: int| 0 <= k < n && above_or_below_of(self.grid@).contains((#[trigger] st[k]).0@) {
            let k = choose|k: int| 0 <= k < n && above_or_below_of(self.grid@).contains((#[trigger] st[k]).0@);
            assert(above_or_below_of(oriented(b, self.vertical)).contains(board_pos(tp[k].0@, self.vertical)));
        }
        if exists|k: int| 0 <= k < n && (#[trigger] st[k]).0@ == 112 {
            let k = choose|k: int| 0 <= k < n && (#[trigger] st[k]).0@ == 112;
            assert(board_pos(tp[k].0@, self.vertical) == 112);
        }
        assert(forms_word(self.fsm, b, tp, self.vertical, start, end));
        assert(in_line(tp, self.vertical) =~= in_line(st, false));
        assert(play_values(self.fsm, b, *gp, self.vertical, start, end));
    }

    /// Adds the current stack as a play.
    fn add_play(
        &self,
        plays: &mut Vec<GeneratedPlay>,
        ws: &WordState,
        Ghost(row): Ghost<int>,
        Ghost(start): Ghost<int>,
        Ghost(end): Ghost<int>,
    )
        requires
            self.inv(row),
            self.plays_ok(old(plays)@),
            self.stack@.len() >= 1,
            ws.score <= 30 * 15,
            ws.cross <= 930 * 15,
            ws.multiplier <= pow3(self.stack@.len()),
            self.word_so_far(row, start, end, ws.state),
            self.fsm.spec_terminal(ws.state),
            end % 15 > 0 ==> letter_at(self.grid@, end) is None,
            end - start >= 2,
            self.touches(start, end),
            self.stack@.len() > 1 || self.vertical || !above_or_below_of(self.grid@).contains(self.stack@[0].0@),
            self.values_so_far(start, end, ws),
        ensures
            self.plays_ok(final(plays)@),
            final(plays)@.len() == old(plays)@.len() + 1,
            forall|k: int| 0 <= k < old(plays)@.len() ==> #[trigger] final(plays)@[k] == old(plays)@[k],
            in_line(final(plays)@[old(plays)@.len() as int].tile_positions@, self.vertical) == in_line(
                self.stack@,
                false,
            ),
            along(self.fsm, self.board@, final(plays)@[old(plays)@.len() as int], self.vertical),
            forms_word(
                self.fsm,
                self.board@,
                final(plays)@[old(plays)@.len() as int].tile_positions@,
                self.vertical,
                start,
                end,
            ),
    {
        let bonus: usize = if self.stack.len() == 7 { 50 } else { 0 };
        let mut tile_positions: Vec<(Pos, Tile)> = Vec::new();
        let mut i: usize = 0;
        proof {
            assert(self.stack@.len() <= 7) by {
                crate::util::tile_counts::lemma_sum_nonneg(self.counts@);
            }
        }
        while i < self.stack.len()
            invariant
                i <= self.stack@.len(),
                self.inv(row),
                tile_positions@.len() == i,
                forall|k: int| 0 <= k < i ==> (#[trigger] tile_positions@[k]).1 == self.stack@[k].1
                    && tile_positions@[k].0@ == board_pos(self.stack@[k].0@, self.vertical),
            decreases self.stack@.len() - i,
        {
            let (pos, tile) = self.stack[i];
            let board_pos = if self.vertical {
                pos.swap_rc()
            } else {
                pos
            };
            tile_positions.push((board_pos, tile));
            i = i + 1;
        }
        proof {
            lemma_pow3_le(self.stack@.len(), 7);
            assert(ws.score * ws.multiplier <= 450 * 2187) by (nonlinear_arith)
                requires
                    ws.score <= 450,
                    ws.multiplier <= 2187,
            ;
            let tp = tile_positions@;
            let st = self.stack@;
            let b = self.board@;
            assert(tiles_of(tp) =~= tiles_of(st));
            assert forall|i: nat| i < 27 implies #[trigger] count_in(tiles_of(tp), i) <= self.rack@[i as int] by {
                assert(self.counts@[i as int] + count_in(tiles_of(st), i) == self.rack@[i as int]);
            }
            assert forall|k: int| 0 <= k < tp.len() implies 0 <= (#[trigger] tp[k]).0@ < 225 && letter_at(b, tp[k].0@) is None
                && tp[k].1.spec_letter() is Some by {
                let q = st[k].0@;
                crate::game::board::lemma_swapped(q);
                if self.vertical {
                    assert(self.grid@[q] == b[swapped(q)]);
                }
            }
            if self.vertical {
                assert forall|x: int, y: int| 0 <= x < y < tp.len() implies (#[trigger] tp[x]).0@ < (#[trigger] tp[y]).0@ by {
                    crate::game::board::lemma_swapped(st[x].0@);
                    crate::game::board::lemma_swapped(st[y].0@);
                    assert(st[x].0@ < st[y].0@);
                    assert(st[x].0@ / 15 == st[y].0@ / 15);
                }
                assert forall|k: int| 0 <= k < tp.len() implies (#[trigger] tp[k]).0@ % 15 == tp[0].0@ % 15 by {
                    crate::game::board::lemma_swapped(st[k].0@);
                    crate::game::board::lemma_swapped(st[0].0@);
                }
            } else {
                assert forall|x: int, y: int| 0 <= x < y < tp.len() implies (#[trigger] tp[x]).0@ < (#[trigger] tp[y]).0@ by {
                    assert(st[x].0@ < st[y].0@);
                }
                assert forall|k: int| 0 <= k < tp.len() implies (#[trigger] tp[k]).0@ / 15 == tp[0].0@ / 15 by {}
            }
        }
        let gp = GeneratedPlay {
            tile_positions,
            score: ws.score * ws.multiplier + ws.cross + bonus,
            cross_count: ws.cross_count,
            len: ws.len,
        };
        proof {
            self.lemma_word_formed(&gp, row, start, end, ws);
            assert(in_line(gp.tile_positions@, self.vertical) =~= in_line(self.stack@, false)) by {
                assert forall|k: int| 0 <= k < self.stack@.len() implies board_pos(
                    (#[trigger] gp.tile_positions@[k]).0@,
                    self.vertical,
                ) == self.stack@[k].0@ by {
                    crate::game::board::lemma_swapped(self.stack@[k].0@);
                }
            }
        }
        let ghost before = plays@;
        plays.push(gp);
        proof {
            assert forall|k: int| 0 <= k < plays@.len() implies generated(self.board@, self.rack@, #[trigger] plays@[k])
                && word_formed(self.fsm, self.board@, plays@[k]) by {
                if k < before.len() {
                    assert(plays@[k] == before[k]);
                }
            }
        }
    }

    /// Checks whether the current word is a valid move, and if so adds it.
    #[verifier::rlimit(60)]
    fn check_position(
        &self,
        plays: &mut Vec<GeneratedPlay>,
        ws: &WordState,
        pos: Option<Pos>,
        Ghost(row): Ghost<int>,
        Ghost(start): Ghost<int>,
        Ghost(end): Ghost<int>,
    )
        requires
            self.inv(row),
            self.plays_ok(old(plays)@),
            ws_ok(self.fsm, ws, None, self.stack@.len()),
            self.word_so_far(row, start, end, ws.state),
            ws.connected ==> self.touches(start, end),
            self.values_so_far(start, end, ws),
            end == end_of(pos, row),
            pos matches Some(p) ==> p@ / 15 == row,
        ensures
            self.plays_ok(final(plays)@),
            old(plays)@.len() <= final(plays)@.len(),
            forall|k: int| 0 <= k < old(plays)@.len() ==> #[trigger] final(plays)@[k] == old(plays)@[k],
            self.finishes(row, start, end, ws.state, ws.connected, Seq::empty(), end) ==> found(
                final(plays)@,
                self.vertical,
                in_line(self.stack@, false),
            ),
            final(plays)@.len() <= old(plays)@.len() + 1,
            forall|k: int|
                old(plays)@.len() <= k < final(plays)@.len() ==> in_line(
                    (#[trigger] final(plays)@[k]).tile_positions@,
                    self.vertical,
                ) == in_line(self.stack@, false) && self.stack@.len() >= 1 && (end % 15 == 0 || letter_at(
                    self.grid@,
                    end,
                ) is None),
            from_start(self.fsm, self.board@, final(plays)@, old(plays)@.len() as int, self.vertical, start),
    {
        proof {
            if self.finishes(row, start, end, ws.state, ws.connected, Seq::empty(), end) {
                self.lemma_finishes_now(row, start, end, ws.state, ws.connected);
            }
        }
        let free = match pos {
            None => true,
            Some(p) => match self.grid.at(p) {
                None => true,
                Some(t) => t.letter().is_err(),
            },
        };
        proof {
            if free && end % 15 > 0 {
                assert(pos is Some);
            }
        }
        if ws.connected && ws.len >= 2 && free && self.fsm.is_terminal(ws.state) {
            let n = self.stack.len();
            if n > 0 {
                let (last, _) = self.stack[n - 1];
                if n > 1 || self.vertical || !self.lookup.is_above_or_below(last) {
                    proof {
                        assert(self.stack@.last() == self.stack@[n - 1]);
                        if n == 1 {
                            assert(self.stack@[0] == self.stack@[n - 1]);
                        }
                    }
                    let ghost before = plays@;
                    self.add_play(plays, ws, Ghost(row), Ghost(start), Ghost(end));
                    proof {
                        let k = before.len() as int;
                        assert(in_line(plays@[k].tile_positions@, self.vertical) == in_line(self.stack@, false));
                        assert forall|j: int| before.len() <= j < plays@.len() implies starts_word(
                            self.fsm,
                            self.board@,
                            (#[trigger] plays@[j]).tile_positions@,
                            self.vertical,
                            start,
                        ) by {
                            assert(j == k);
                            assert(forms_word(self.fsm, self.board@, plays@[j].tile_positions@, self.vertical, start, end));
                        }
                    }
                }
            }
        }
    }

    /// A play finished where the word read so far ends, with nothing more
    /// to place: the word is complete and two letters long or more, no
    /// letter follows it, it touches the board, and a single tile placed
    /// along the rows has no tile just above or below it.
    proof fn lemma_finishes_now(&self, row: int, start: int, end: int, state: StateId, connected: bool)
        requires
            self.inv(row),
            self.finishes(row, start, end, state, connected, Seq::empty(), end),
        ensures
            self.fsm.spec_terminal(state),
            connected,
            self.stack@.len() >= 1,
            end % 15 > 0 ==> letter_at(self.grid@, end) is None,
            end - start >= 2,
            self.stack@.len() > 1 || self.vertical || !self.lookup.spec_above_or_below().contains(
                self.stack@.last().0@,
            ),
    {
        let e = Seq::<(int, Tile)>::empty();
        assert(letters_with(self.grid@, e, end, end) =~= Seq::<Letter>::empty());
    }

}

impl<'a, 'b, F: Fsm> MoveGen<'a, 'b, F> {
    /// Visits `pos` (if any) with the word state `ws`: records the word so
    /// far if it is a valid move, then continues along the row.
    fn gen_recursive(
        &mut self,
        plays: &mut Vec<GeneratedPlay>,
        pos: Option<Pos>,
        ws: WordState,
        Ghost(row): Ghost<int>,
        Ghost(start): Ghost<int>,
    )
        requires
            old(self).inv(row),
            old(self).plays_ok(old(plays)@),
            ws_ok(old(self).fsm, &ws, pos, old(self).stack@.len()),
            old(self).word_so_far(row, start, end_of(pos, row), ws.state),
            ws.connected ==> old(self).touches(start, end_of(pos, row)),
            old(self).values_so_far(start, end_of(pos, row), &ws),
            pos matches Some(p) ==> p@ / 15 == row && forall|k: int| 0 <= k < old(self).stack@.len()
                ==> (#[trigger] old(self).stack@[k]).0@ < p@,
        ensures
            final(self).inv(row),
            final(self).same_setup(old(self)),
            final(self).stack@ == old(self).stack@,
            final(self).counts@ == old(self).counts@,
            final(self).plays_ok(final(plays)@),
            old(plays)@.len() <= final(plays)@.len(),
            forall|k: int| 0 <= k < old(plays)@.len() ==> #[trigger] final(plays)@[k] == old(plays)@[k],
            forall|more: Seq<(int, Tile)>, e: int|
                #[trigger] old(self).finishes(row, start, end_of(pos, row), ws.state, ws.connected, more, e) ==> found(
                    final(plays)@,
                    old(self).vertical,
                    in_line(old(self).stack@, false) + more,
                ),
            extend(final(plays)@, old(plays)@.len() as int, old(self).vertical, in_line(old(self).stack@, false), end_of(pos, row)),
            all_distinct(final(plays)@, old(plays)@.len() as int, old(self).vertical),
            from_start(old(self).fsm, old(self).board@, final(plays)@, old(plays)@.len() as int, old(self).vertical, start),
        decreases pos_measure(pos), 2nat,
    {
        let ghost s0 = *self;
        let ghost plays0 = plays@;
        let ghost end = end_of(pos, row);
        let ghost st = in_line(s0.stack@, false);
        self.check_position(plays, &ws, pos, Ghost(row), Ghost(start), Ghost(end));
        let ghost plays1 = plays@;
        proof {
            assert(in_line(s0.stack@, false) + Seq::<(int, Tile)>::empty() =~= in_line(s0.stack@, false));
            if plays1.len() > plays0.len() {
                assert(in_line(plays1[plays0.len() as int].tile_positions@, s0.vertical) == st);
                assert(s0.stack@.len() >= 1);
                assert(start <= s0.stack@[0].0@ < end);
                if end % 15 == 0 {
                    assert(end == row * 15 + 15);
                }
            }
        }
        match pos {
            None => {
                proof {
                    assert forall|more: Seq<(int, Tile)>, e: int|
                        #[trigger] s0.finishes(row, start, end, ws.state, ws.connected, more, e) implies found(
                        plays@,
                        s0.vertical,
                        in_line(s0.stack@, false) + more,
                    ) by {
                        s0.lemma_finishes_here(row, start, end, ws.state, ws.connected, more, e);
                    }
                    lemma_join(s0.fsm, s0.board@, plays0, plays1, plays@, s0.vertical, st, end, start);
                }
            },
            Some(p) => {
                let next_pos = p.dir(Direction::East);
                let _ = p.index();
                match self.grid.at(p) {
                    Some(t) => match t.letter() {
                        Ok(l) => {
                            self.occupied_square(plays, ws, next_pos, t, l, Ghost(row), Ghost(p), Ghost(start));
                            proof {
                                assert forall|more: Seq<(int, Tile)>, e: int|
                                    #[trigger] s0.finishes(row, start, end, ws.state, ws.connected, more, e) implies found(
                                    plays@,
                                    s0.vertical,
                                    in_line(s0.stack@, false) + more,
                                ) by {
                                    if e <= end {
                                        s0.lemma_finishes_here(row, start, end, ws.state, ws.connected, more, e);
                                        lemma_found_kept(plays1, plays@, s0.vertical, in_line(s0.stack@, false) + more);
                                    }
                                }
                                lemma_extend_from(plays@, plays1.len() as int, s0.vertical, st, p@ + 1, end);
                                lemma_join(s0.fsm, s0.board@, plays0, plays1, plays@, s0.vertical, st, end, start);
                            }
                            return;
                        },
                        Err(_) => {},
                    },
                    None => {},
                }
                self.empty_square(plays, ws, next_pos, p, Ghost(row), Ghost(start));
                proof {
                    assert forall|more: Seq<(int, Tile)>, e: int|
                        #[trigger] s0.finishes(row, start, end, ws.state, ws.connected, more, e) implies found(
                        plays@,
                        s0.vertical,
                        in_line(s0.stack@, false) + more,
                    ) by {
                        if e <= end {
                            s0.lemma_finishes_here(row, start, end, ws.state, ws.connected, more, e);
                            lemma_found_kept(plays1, plays@, s0.vertical, in_line(s0.stack@, false) + more);
                        }
                    }
                    lemma_join(s0.fsm, s0.board@, plays0, plays1, plays@, s0.vertical, st, end, start);
                }
            },
        }
    }

    /// Continues through a square that already holds a tile.
    fn occupied_square(
        &mut self,
        plays: &mut Vec<GeneratedPlay>,
        ws: WordState,
        next_pos: Option<Pos>,
        tile: Tile,
        letter: Letter,
        Ghost(row): Ghost<int>,
        Ghost(p): Ghost<Pos>,
        Ghost(start): Ghost<int>,
    )
        requires
            old(self).inv(row),
            old(self).plays_ok(old(plays)@),
            ws_ok(old(self).fsm, &ws, Some(p), old(self).stack@.len()),
            old(self).word_so_far(row, start, p@, ws.state),
            ws.connected ==> old(self).touches(start, p@),
            old(self).values_so_far(start, p@, &ws),
            old(self).grid@[p@] == Some(tile),
            letter_at(old(self).grid@, p@) == Some(letter),
            0 <= p@ < 225,
            p@ / 15 == row,
            forall|k: int| 0 <= k < old(self).stack@.len() ==> (#[trigger] old(self).stack@[k]).0@ < p@,
            next_pos == p.spec_offset(Direction::East, 1),
        ensures
            final(self).inv(row),
            final(self).same_setup(old(self)),
            final(self).stack@ == old(self).stack@,
            final(self).counts@ == old(self).counts@,
            final(self).plays_ok(final(plays)@),
            old(plays)@.len() <= final(plays)@.len(),
            forall|k: int| 0 <= k < old(plays)@.len() ==> #[trigger] final(plays)@[k] == old(plays)@[k],
            forall|more: Seq<(int, Tile)>, e: int|
                #[trigger] old(self).finishes(row, start, p@, ws.state, ws.connected, more, e) && p@ < e ==> found(
                    final(plays)@,
                    old(self).vertical,
                    in_line(old(self).stack@, false) + more,
                ),
            extend(final(plays)@, old(plays)@.len() as int, old(self).vertical, in_line(old(self).stack@, false), p@ + 1),
            all_distinct(final(plays)@, old(plays)@.len() as int, old(self).vertical),
            from_start(old(self).fsm, old(self).board@, final(plays)@, old(plays)@.len() as int, old(self).vertical, start),
        decreases pos_measure(Some(p)), 1nat,
    {
        let ghost s0 = *self;
        if let Some(next_state) = self.fsm.step(ws.state, letter) {
            proof {
                lemma_east(p);
                self.lemma_read_on(row, start, p@, ws.state, letter, next_state);
            }
            let sc = tile.score();
            let ws2 = WordState {
                state: next_state,
                score: ws.score + sc,
                cross_count: ws.cross_count,
                len: ws.len + 1,
                multiplier: ws.multiplier,
                cross: ws.cross,
                connected: true,
            };
            self.gen_recursive(plays, next_pos, ws2, Ghost(row), Ghost(start));
            proof {
                assert(end_of(next_pos, row) == p@ + 1);
                assert forall|more: Seq<(int, Tile)>, e: int|
                    #[trigger] s0.finishes(row, start, p@, ws.state, ws.connected, more, e) && p@ < e implies found(
                    plays@,
                    s0.vertical,
                    in_line(s0.stack@, false) + more,
                ) by {
                    s0.lemma_finishes_read(row, start, p@, ws.state, ws.connected, letter, more, e);
                    assert(s0.finishes(row, start, end_of(next_pos, row), ws2.state, ws2.connected, more, e));
                }
            }
        } else {
            proof {
                assert forall|more: Seq<(int, Tile)>, e: int|
                    #[trigger] s0.finishes(row, start, p@, ws.state, ws.connected, more, e) && p@ < e implies found(
                    plays@,
                    s0.vertical,
                    in_line(s0.stack@, false) + more,
                ) by {
                    s0.lemma_finishes_read(row, start, p@, ws.state, ws.connected, letter, more, e);
                }
            }
        }
    }

    /// Tries every tile of the rack that continues the word on the empty
    /// square `p`.
    fn empty_square(
        &mut self,
        plays: &mut Vec<GeneratedPlay>,
        ws: WordState,
        next_pos: Option<Pos>,
        p: Pos,
        Ghost(row): Ghost<int>,
        Ghost(start): Ghost<int>,
    )
        requires
            old(self).inv(row),
            old(self).plays_ok(old(plays)@),
            ws_ok(old(self).fsm, &ws, Some(p), old(self).stack@.len()),
            old(self).word_so_far(row, start, p@, ws.state),
            ws.connected ==> old(self).touches(start, p@),
            old(self).values_so_far(start, p@, &ws),
            0 <= p@ < 225,
            p@ / 15 == row,
            letter_at(old(self).grid@, p@) is None,
            forall|k: int| 0 <= k < old(self).stack@.len() ==> (#[trigger] old(self).stack@[k]).0@ < p@,
            next_pos == p.spec_offset(Direction::East, 1),
        ensures
            final(self).inv(row),
            final(self).same_setup(old(self)),
            final(self).stack@ == old(self).stack@,
            final(self).counts@ == old(self).counts@,
            final(self).plays_ok(final(plays)@),
            old(plays)@.len() <= final(plays)@.len(),
            forall|k: int| 0 <= k < old(plays)@.len() ==> #[trigger] final(plays)@[k] == old(plays)@[k],
            forall|more: Seq<(int, Tile)>, e: int|
                #[trigger] old(self).finishes(row, start, p@, ws.state, ws.connected, more, e) && p@ < e ==> found(
                    final(plays)@,
                    old(self).vertical,
                    in_line(old(self).stack@, false) + more,
                ),
            extend(final(plays)@, old(plays)@.len() as int, old(self).vertical, in_line(old(self).stack@, false), p@),
            longer(final(plays)@, old(plays)@.len() as int, old(self).vertical, old(self).stack@.len() as int),
            all_distinct(final(plays)@, old(plays)@.len() as int, old(self).vertical),
            from_start(old(self).fsm, old(self).board@, final(plays)@, old(plays)@.len() as int, old(self).vertical, start),
        decreases pos_measure(Some(p)), 1nat,
    {
        let ts = self.fsm.transitions(ws.state);
        let ghost setup0 = *self;
        let ghost plays0 = plays@;
        let mut j: usize = 0;
        while j < ts.len()
            invariant
                j <= ts@.len(),
                self.inv(row),
                self.same_setup(&setup0),
                self.stack@ == setup0.stack@,
                self.counts@ == setup0.counts@,
                self.plays_ok(plays@),
                plays0.len() <= plays@.len(),
                forall|k: int| 0 <= k < plays0.len() ==> #[trigger] plays@[k] == plays0[k],
                ws_ok(self.fsm, &ws, Some(p), self.stack@.len()),
                0 <= p@ < 225,
                p@ / 15 == row,
                letter_at(self.grid@, p@) is None,
                forall|k: int| 0 <= k < self.stack@.len() ==> (#[trigger] self.stack@[k]).0@ < p@,
                next_pos == p.spec_offset(Direction::East, 1),
                forall|m: int| 0 <= m < ts@.len() ==> self.fsm.spec_valid((#[trigger] ts@[m]).1)
                    && self.fsm.spec_step(ws.state, ts@[m].0) == Some(ts@[m].1),
                self.word_so_far(row, start, p@, ws.state),
                ws.connected ==> self.touches(start, p@),
                self.values_so_far(start, p@, &ws),
                forall|a: int, b: int| 0 <= a < b < ts@.len() ==> (#[trigger] ts@[a]).0 != (#[trigger] ts@[b]).0,
                tried(plays@, plays0.len() as int, setup0.vertical, in_line(setup0.stack@, false), p@, ts@, j as int),
                all_distinct(plays@, plays0.len() as int, setup0.vertical),
                from_start(setup0.fsm, setup0.board@, plays@, plays0.len() as int, setup0.vertical, start),
                forall|more: Seq<(int, Tile)>, e: int|
                    #[trigger] setup0.finishes(row, start, p@, ws.state, ws.connected, more, e) && more.len() > 0
                        && more[0].0 == p@ && more[0].1.spec_letter() is Some && (exists|m: int|
                        0 <= m < j && #[trigger] ts@[m].0 == more[0].1.spec_letter()->0) ==> found(
                        plays@,
                        setup0.vertical,
                        in_line(setup0.stack@, false) + more,
                    ),
            decreases ts@.len() - j,
        {
            let (l, next) = ts[j];
            let ghost plays_a = plays@;
            let ghost cur = *self;
            self.try_tile(plays, &ws, next_pos, p, Tile::Letter(l), next, Ghost(row), Ghost(start));
            let ghost plays_b = plays@;
            let ghost cur2 = *self;
            self.try_tile(plays, &ws, next_pos, p, Tile::Blank(Some(l)), next, Ghost(row), Ghost(start));
            proof {
                lemma_tried(
                    plays_a,
                    plays_b,
                    plays@,
                    plays0.len() as int,
                    setup0.vertical,
                    in_line(setup0.stack@, false),
                    p@,
                    ts@,
                    j as int,
                );
                assert forall|k: int| plays0.len() <= k < plays@.len() implies starts_word(
                    setup0.fsm,
                    setup0.board@,
                    (#[trigger] plays@[k]).tile_positions@,
                    setup0.vertical,
                    start,
                ) by {
                    if k < plays_a.len() {
                        assert(plays@[k] == plays_a[k]);
                    } else if k < plays_b.len() {
                        assert(plays@[k] == plays_b[k]);
                    }
                }
                assert forall|more: Seq<(int, Tile)>, e: int|
                    #[trigger] setup0.finishes(row, start, p@, ws.state, ws.connected, more, e) && more.len() > 0
                        && more[0].0 == p@ && more[0].1.spec_letter() is Some && (exists|m: int|
                        0 <= m < j + 1 && #[trigger] ts@[m].0 == more[0].1.spec_letter()->0) implies found(
                    plays@,
                    setup0.vertical,
                    in_line(setup0.stack@, false) + more,
                ) by {
                    let sq = in_line(setup0.stack@, false) + more;
                    if exists|m: int| 0 <= m < j && #[trigger] ts@[m].0 == more[0].1.spec_letter()->0 {
                        lemma_found_kept(plays_a, plays@, setup0.vertical, sq);
                    } else {
                        let m = choose|m: int| 0 <= m < j + 1 && #[trigger] ts@[m].0 == more[0].1.spec_letter()->0;
                        assert(m == j);
                        assert(more[0].1.spec_letter()->0 == l);
                        assert(cur.finishes(row, start, p@, ws.state, ws.connected, more, e) == setup0.finishes(
                            row,
                            start,
                            p@,
                            ws.state,
                            ws.connected,
                            more,
                            e,
                        ));
                        assert(cur2.finishes(row, start, p@, ws.state, ws.connected, more, e) == setup0.finishes(
                            row,
                            start,
                            p@,
                            ws.state,
                            ws.connected,
                            more,
                            e,
                        ));
                        if more[0].1 == Tile::Letter(l) {
                            assert(more[0] == (p@, Tile::Letter(l)));
                            lemma_found_kept(plays_b, plays@, setup0.vertical, sq);
                        } else {
                            assert(more[0] == (p@, Tile::Blank(Some(l))));
                        }
                    }
                }
            }
            j = j + 1;
        }
        proof {
            let m = setup0.stack@.len() as int;
            let st = in_line(setup0.stack@, false);
            assert forall|k: int| plays0.len() <= k < plays@.len() implies extends_to(
                in_line((#[trigger] plays@[k]).tile_positions@, setup0.vertical),
                st,
                p@,
            ) && in_line(plays@[k].tile_positions@, setup0.vertical).len() > m by {}
            assert forall|more: Seq<(int, Tile)>, e: int|
                #[trigger] setup0.finishes(row, start, p@, ws.state, ws.connected, more, e) && p@ < e implies found(
                plays@,
                setup0.vertical,
                in_line(setup0.stack@, false) + more,
            ) by {
                setup0.lemma_finishes_first(row, start, p@, ws.state, ws.connected, more, e);
                let l = more[0].1.spec_letter()->0;
                assert(self.fsm.spec_step(ws.state, l) is Some);
                let m = choose|m: int| 0 <= m < ts@.len() && ts@[m].0 == l;
                assert(ts@[m].0 == more[0].1.spec_letter()->0);
            }
        }
    }

    /// Places `tile` on the empty square `p`, if the rack holds it and the
    /// vertical word it forms is valid, and continues along the row.
    #[verifier::spinoff_prover]
    #[verifier::rlimit(100)]
    fn try_tile(
        &mut self,
        plays: &mut Vec<GeneratedPlay>,
        ws: &WordState,
        next_pos: Option<Pos>,
        p: Pos,
        tile: Tile,
        next: StateId,
        Ghost(row): Ghost<int>,
        Ghost(start): Ghost<int>,
    )
        requires
            old(self).inv(row),
            old(self).plays_ok(old(plays)@),
            ws_ok(old(self).fsm, ws, Some(p), old(self).stack@.len()),
            old(self).fsm.spec_valid(next),
            tile.spec_letter() is Some,
            old(self).fsm.spec_step(ws.state, tile.spec_letter()->0) == Some(next),
            old(self).word_so_far(row, start, p@, ws.state),
            ws.connected ==> old(self).touches(start, p@),
            old(self).values_so_far(start, p@, ws),
            0 <= p@ < 225,
            p@ / 15 == row,
            letter_at(old(self).grid@, p@) is None,
            forall|k: int| 0 <= k < old(self).stack@.len() ==> (#[trigger] old(self).stack@[k]).0@ < p@,
            next_pos == p.spec_offset(Direction::East, 1),
        ensures
            final(self).inv(row),
            final(self).same_setup(old(self)),
            final(self).stack@ == old(self).stack@,
            final(self).counts@ == old(self).counts@,
            final(self).plays_ok(final(plays)@),
            old(plays)@.len() <= final(plays)@.len(),
            forall|k: int| 0 <= k < old(plays)@.len() ==> #[trigger] final(plays)@[k] == old(plays)@[k],
            forall|more: Seq<(int, Tile)>, e: int|
                #[trigger] old(self).finishes(row, start, p@, ws.state, ws.connected, more, e) && more.len() > 0 && more[0]
                    == (p@, tile) ==> found(final(plays)@, old(self).vertical, in_line(old(self).stack@, false) + more),
            extend(
                final(plays)@,
                old(plays)@.len() as int,
                old(self).vertical,
                in_line(old(self).stack@, false).push((p@, tile)),
                p@ + 1,
            ),
            all_distinct(final(plays)@, old(plays)@.len() as int, old(self).vertical),
            from_start(old(self).fsm, old(self).board@, final(plays)@, old(plays)@.len() as int, old(self).vertical, start),
        decreases pos_measure(Some(p)), 0nat,
    {
        match tile {
            Tile::Letter(l) => {
                let _ = l.to_index();
            },
            Tile::Blank(Some(l)) => {
                let _ = l.to_index();
            },
            Tile::Blank(None) => {},
        }
        let _ = tile.to_index();
        let ghost s0 = *self;
        let ps = match self.lookup.score_tile(p, tile) {
            Some(ps) => ps,
            None => {
                proof {
                    assert forall|more: Seq<(int, Tile)>, e: int|
                        #[trigger] s0.finishes(row, start, p@, ws.state, ws.connected, more, e) && more.len() > 0 && more[0]
                            == (p@, tile) implies found(plays@, s0.vertical, in_line(s0.stack@, false) + more) by {
                        s0.lemma_finishes_held(row, start, p@, ws.state, ws.connected, tile, more, e);
                    }
                }
                return;
            },
        };
        proof {
            if above_or_below_of(self.grid@).contains(p@) {
                let k = key_of(tile)->0;
                match tile {
                    Tile::Letter(l) => {
                        crate::game::tile::Letter::lemma_index_determines(l);
                    },
                    Tile::Blank(o) => {
                        crate::game::tile::Letter::lemma_index_determines(o->0);
                    },
                }
                assert(0 <= k < 52);
                assert(tile_of_key(k) == tile);
                assert(self.lookup.spec_table(p@, k) == Some(ps));
                assert(opt_int(self.lookup.spec_table(p@, k)) == spec_entry(self.fsm, self.grid@, self.rack@, p@, k));
                reveal(spec_entry);
                assert(vertical_score(self.fsm, self.grid@, p@, tile) == Some(ps as int));
            }
            assert(cross_word_ok(self.fsm, self.grid@, p@, tile));
            assert(ps as int == cross_score(self.fsm, self.grid@, p@, tile));
        }
        if !self.counts.any(tile) {
            proof {
                assert forall|more: Seq<(int, Tile)>, e: int|
                    #[trigger] s0.finishes(row, start, p@, ws.state, ws.connected, more, e) && more.len() > 0 && more[0] == (
                        p@,
                        tile,
                    ) implies found(plays@, s0.vertical, in_line(s0.stack@, false) + more) by {
                    s0.lemma_finishes_held(row, start, p@, ws.state, ws.connected, tile, more, e);
                }
            }
            return;
        }
        let ghost before = *self;
        let ti = tile.to_index();
        proof {
            crate::util::tile_counts::lemma_sum_nonneg(self.counts@);
        }
        self.counts.remove_one(tile);
        self.stack.push((p, tile));
        proof {
            before.lemma_pushed(&*self, row, p@, tile);
            before.lemma_place_on(&*self, row, start, p@, ws.state, tile, next);
        }
        let (tm, wm) = p.premium_multipliers();
        let sc = tile.score();
        let aob = self.lookup.is_above_or_below(p);
        proof {
            lemma_east(p);
            crate::util::tile_counts::lemma_sum_nonneg(self.counts@);
            lemma_pow3_le(self.stack@.len(), 7);
            assert(tm * sc <= 30) by (nonlinear_arith)
                requires
                    tm <= 3,
                    sc <= 10,
            ;
            assert(1 <= ws.multiplier * wm <= pow3(self.stack@.len())) by (nonlinear_arith)
                requires
                    1 <= ws.multiplier <= pow3(before.stack@.len()),
                    1 <= wm <= 3,
                    pow3(self.stack@.len()) == 3 * pow3(before.stack@.len()),
            ;
        }
        let ws2 = WordState {
            state: next,
            score: ws.score + tm * sc,
            cross_count: ws.cross_count + if ps > 0 { 1 } else { 0 },
            len: ws.len + 1,
            multiplier: ws.multiplier * wm,
            cross: ws.cross + ps,
            connected: ws.connected || aob || p.index() == 112,
        };
        proof {
            before.lemma_step_values(&*self, start, p@, tile, tm as int, ps as int, ws, &ws2);
        }
        let ghost mid = *self;
        self.gen_recursive(plays, next_pos, ws2, Ghost(row), Ghost(start));
        proof {
            assert(end_of(next_pos, row) == p@ + 1);
            assert(Pos::at(p@) == p);
            assert(in_line(mid.stack@, false) =~= in_line(s0.stack@, false).push((p@, tile)));
            assert forall|more: Seq<(int, Tile)>, e: int|
                #[trigger] s0.finishes(row, start, p@, ws.state, ws.connected, more, e) && more.len() > 0 && more[0] == (
                    p@,
                    tile,
                ) implies found(plays@, s0.vertical, in_line(s0.stack@, false) + more) by {
                before.lemma_finishes_place(&mid, row, start, p@, ws.state, ws.connected, tile, next, more, e);
                assert(mid.finishes(row, start, end_of(next_pos, row), ws2.state, ws2.connected, more.drop_first(), e));
                assert(in_line(mid.stack@, false) + more.drop_first() =~= in_line(s0.stack@, false) + more);
            }
        }
        let _ = self.stack.pop();
        proof {
            crate::util::tile_counts::lemma_sum_nonneg(self.counts@);
        }
        self.counts.insert_one(tile);
        proof {
            assert(self.stack@ =~= before.stack@);
            assert(self.counts@ =~= before.counts@);
        }
    }
}

impl<'a, 'b, F: Fsm> MoveGen<'a, 'b, F> {
    /// Creates a generator for the words along the rows of `grid`, which is
    /// the board `board` as laid out, or with rows and columns swapped.
    fn new(rack: &Rack, grid: &'b Grid, fsm: &'a F, vertical: bool, Ghost(board): Ghost<Seq<Option<Tile>>>) -> (m: Self)
        requires
            columns_traversable(fsm, grid@),
            grid@ == oriented(board, vertical),
            board.len() == 225,
        ensures
            forall|row: int| 0 <= row < 15 ==> m.inv(row),
            m.stack@.len() == 0,
            m.rack@ == rack@,
            m.board@ == board,
            m.fsm == fsm,
            m.counts.spec_len() == rack.spec_len(),
            m.grid@ == grid@,
            m.vertical == vertical,
            m.occ@ == occupied(grid@),
    {
        let occ = *grid.occ();
        let counts = *rack.tile_counts();
        let lookup = Lookup::new(fsm, &counts, grid);
        proof {
            Grid::lemma_grid(*grid);
            crate::util::tile_counts::lemma_sum_nonneg(counts@);
            crate::game::rack::Rack::lemma_view_len(*rack);
        }
        let m = MoveGen {
            fsm,
            grid,
            lookup,
            occ,
            stack: Vec::new(),
            counts,
            vertical,
            board: Ghost(board),
            rack: Ghost(rack@),
            total: Ghost(counts.spec_len()),
        };
        proof {
            assert(tiles_of(m.stack@) =~= Seq::<Tile>::empty());
            crate::util::bitboard::BitBoard::lemma_view_bounded(occ);
            assert(m.occ@ =~= occupied(grid@));
        }
        m
    }

    /// Adds all moves for the position to `plays`: words starting on each
    /// square where a word could start.
    fn gen(self, plays: &mut Vec<GeneratedPlay>)
        requires
            forall|row: int| 0 <= row < 15 ==> self.inv(row),
            self.stack@.len() == 0,
            self.plays_ok(old(plays)@),
            self.counts.spec_len() >= 1,
        ensures
            self.plays_ok(final(plays)@),
            old(plays)@.len() <= final(plays)@.len(),
            forall|k: int| 0 <= k < old(plays)@.len() ==> #[trigger] final(plays)@[k] == old(plays)@[k],
            forall|s: int, more: Seq<(int, Tile)>, e: int|
                spec_possible_starts(self.occ@, self.counts.spec_len()).contains(s) && #[trigger] completes(
                    self.fsm,
                    self.grid@,
                    self.rack@,
                    self.vertical,
                    s,
                    more,
                    e,
                ) ==> found(final(plays)@, self.vertical, more),
            forall|k: int|
                old(plays)@.len() <= k < final(plays)@.len() ==> along(
                    self.fsm,
                    self.board@,
                    #[trigger] final(plays)@[k],
                    self.vertical,
                ),
            distinct_plays(final(plays)@, old(plays)@.len() as int, final(plays)@.len() as int),
    {
        let ghost plays0 = plays@;
        proof {
            assert(self.counts@ =~= self.rack@) by {
                assert(self.inv(0));
                assert(tiles_of(self.stack@) =~= Seq::<Tile>::empty());
                assert forall|i: int| 0 <= i < 27 implies self.counts@[i] == self.rack@[i] by {
                    assert(count_in(tiles_of(self.stack@), i as nat) == 0);
                }
            }
        }
        let mut m = self;
        let rack_len = m.counts.len();
        let mut starts = possible_starts_h(m.occ, rack_len).iter();
        let ghost setup = m;
        loop
            invariant
                forall|row: int| 0 <= row < 15 ==> m.inv(row),
                m.same_setup(&setup),
                m.stack@.len() == 0,
                m.plays_ok(plays@),
                setup.plays_ok(plays@),
                starts@.subset_of(spec_possible_starts(m.occ@, rack_len as int)),
                m.counts@ == setup.counts@,
                setup.counts@ == setup.rack@,
                setup.stack@.len() == 0,
                rack_len == setup.counts.spec_len(),
                plays0.len() <= plays@.len(),
                forall|k: int| 0 <= k < plays0.len() ==> #[trigger] plays@[k] == plays0[k],
                forall|k: int|
                    plays0.len() <= k < plays@.len() ==> along(
                        setup.fsm,
                        setup.board@,
                        #[trigger] plays@[k],
                        setup.vertical,
                    ),
                all_distinct(plays@, plays0.len() as int, setup.vertical),
                forall|k: int|
                    plays0.len() <= k < plays@.len() ==> started_before(
                        setup.fsm,
                        setup.board@,
                        (#[trigger] plays@[k]).tile_positions@,
                        setup.vertical,
                        starts@,
                    ),
                forall|s: int, more: Seq<(int, Tile)>, e: int|
                    spec_possible_starts(setup.occ@, rack_len as int).contains(s) && !starts@.contains(s)
                        && #[trigger] completes(setup.fsm, setup.grid@, setup.rack@, setup.vertical, s, more, e) ==> found(
                        plays@,
                        setup.vertical,
                        more,
                    ),
            ensures
                starts@ == Set::<int>::empty(),
            decreases starts@.len(),
        {
            proof {
                crate::util::bitboard::Bits::lemma_bounded(starts);
            }
            let ghost starts0 = starts@;
            let start = match starts.next() {
                Some(p) => p,
                None => {
                    break;
                },
            };
            let _ = start.index();
            let ws = WordState {
                state: m.fsm.initial_state(),
                score: 0,
                cross_count: 0,
                len: 0,
                multiplier: 1,
                cross: 0,
                connected: false,
            };
            let ghost row = start@ / 15;
            proof {
                let st = m.stack@;
                assert(st.len() == 0);
                assert(place_all(m.grid@, st) == m.grid@);
                assert(letters_between(m.grid@, start@, start@) =~= Seq::<Letter>::empty());
                assert(m.inv(row));
                if start@ % 15 > 0 {
                    assert(spec_possible_starts(m.occ@, rack_len as int).contains(start@));
                    assert(!has_left(m.occ@, start@));
                    assert(!m.occ@.contains(start@ - 1));
                    assert(m.grid@[start@ - 1] is Some <==> m.occ@.contains(start@ - 1));
                    assert(m.grid@[start@ - 1] is None);
                }
                assert(m.word_so_far(row, start@, start@, ws.state));
            }
            let ghost m0 = m;
            let ghost plays_a = plays@;
            m.gen_recursive(plays, Some(start), ws, Ghost(row), Ghost(start@));
            proof {
                assert forall|r2: int| 0 <= r2 < 15 implies m.inv(r2) by {}
                assert forall|s: int, more: Seq<(int, Tile)>, e: int|
                    spec_possible_starts(setup.occ@, rack_len as int).contains(s) && !starts@.contains(s)
                        && #[trigger] completes(setup.fsm, setup.grid@, setup.rack@, setup.vertical, s, more, e) implies found(
                    plays@,
                    setup.vertical,
                    more,
                ) by {
                    if s == start@ {
                        m0.lemma_finishes_start(s, more, e);
                        assert(m0.finishes(row, start@, end_of(Some(start), row), ws.state, ws.connected, more, e));
                        assert(in_line(m0.stack@, false) + more =~= more);
                    } else {
                        lemma_found_kept(plays_a, plays@, setup.vertical, more);
                    }
                }
                assert forall|k: int| plays0.len() <= k < plays@.len() implies started_before(
                    setup.fsm,
                    setup.board@,
                    (#[trigger] plays@[k]).tile_positions@,
                    setup.vertical,
                    starts@,
                ) by {
                    if k < plays_a.len() {
                        assert(plays@[k] == plays_a[k]);
                        assert(started_before(setup.fsm, setup.board@, plays_a[k].tile_positions@, setup.vertical, starts0));
                        let (s, e) = choose|s: int, e: int|
                            !starts0.contains(s) && #[trigger] forms_word(
                                setup.fsm,
                                setup.board@,
                                plays_a[k].tile_positions@,
                                setup.vertical,
                                s,
                                e,
                            );
                        assert(!starts@.contains(s));
                    } else {
                        assert(starts_word(setup.fsm, setup.board@, plays@[k].tile_positions@, setup.vertical, start@));
                        let e = choose|e: int|
                            forms_word(setup.fsm, setup.board@, plays@[k].tile_positions@, setup.vertical, start@, e);
                        assert(forms_word(setup.fsm, setup.board@, plays@[k].tile_positions@, setup.vertical, start@, e));
                        assert(!starts@.contains(start@));
                    }
                }
                assert forall|i: int, k: int| plays0.len() <= i < k < plays@.len() implies (#[trigger] plays@[i]).tile_positions@
                    != (#[trigger] plays@[k]).tile_positions@ by {
                    if k < plays_a.len() {
                        assert(plays@[i] == plays_a[i] && plays@[k] == plays_a[k]);
                    } else if i < plays_a.len() {
                        assert(plays@[i] == plays_a[i]);
                        assert(started_before(setup.fsm, setup.board@, plays_a[i].tile_positions@, setup.vertical, starts0));
                        let (s, e) = choose|s: int, e: int|
                            !starts0.contains(s) && #[trigger] forms_word(
                                setup.fsm,
                                setup.board@,
                                plays_a[i].tile_positions@,
                                setup.vertical,
                                s,
                                e,
                            );
                        if plays@[i].tile_positions@ == plays@[k].tile_positions@ {
                            assert(starts_word(setup.fsm, setup.board@, plays@[k].tile_positions@, setup.vertical, start@));
                            let e2 = choose|e2: int|
                                forms_word(setup.fsm, setup.board@, plays@[k].tile_positions@, setup.vertical, start@, e2);
                            lemma_start_unique(
                                setup.fsm,
                                setup.board@,
                                plays@[k].tile_positions@,
                                setup.vertical,
                                s,
                                e,
                                start@,
                                e2,
                            );
                        }
                    }
                }
            }
        }
    }
}

/// Adds all moves for the board position to `plays`, which is cleared
/// first: words along the columns, then along the rows. Every column and
/// row of letters must be a path of the machine from its start, and the
/// rack must hold a tile. The plays are exactly described by
/// [`all_moves`]: each places tiles of the rack in a line on squares
/// without a letter and completes a word of two letters or more along that
/// line, running over tiles already on the board on either side, touching
/// them or covering the start square; every such play is among them; and
/// none is repeated within the words along the columns or along the rows
/// ([`law_no_play_twice`] gives that none is repeated at all).
pub fn gen<F: Fsm>(board: &Board, rack: &Rack, fsm: &F, plays: &mut Vec<GeneratedPlay>)
    requires
        columns_traversable(fsm, board@),
        columns_traversable(fsm, transposed(board@)),
        rack.spec_len() >= 1,
    ensures
        all_moves(fsm, board@, rack@, final(plays)@),
{
    plays.clear();
    proof {
        Board::lemma_len(*board);
        Rack::lemma_view_len(*rack);
    }
    let mv = MoveGen::new(rack, board.grid_v(), fsm, true, Ghost(board@));
    mv.gen(plays);
    let ghost plays_v = plays@;
    let mh = MoveGen::new(rack, board.grid_h(), fsm, false, Ghost(board@));
    mh.gen(plays);
    proof {
        assert forall|v: bool, s: int, sq: Seq<(int, Tile)>, e: int|
            0 <= s < 225 && (s % 15 == 0 || oriented(board@, v)[s - 1] is None) && #[trigger] completes(
                fsm,
                oriented(board@, v),
                rack@,
                v,
                s,
                sq,
                e,
            ) implies found(plays@, v, sq) by {
            lemma_start_possible(fsm, oriented(board@, v), rack@, v, s, sq, e);
            if v {
                lemma_found_kept(plays_v, plays@, v, sq);
            }
        }
        let n = plays_v.len() as int;
        assert forall|k: int| 0 <= k < n implies along(fsm, board@, #[trigger] plays@[k], true) by {
            assert(plays@[k] == plays_v[k]);
        }
        assert(columns_then_rows(fsm, board@, plays@, n));
        assert forall|i: int, j: int| 0 <= i < j < n implies (#[trigger] plays@[i]).tile_positions@
            != (#[trigger] plays@[j]).tile_positions@ by {
            assert(plays@[i] == plays_v[i] && plays@[j] == plays_v[j]);
        }
        assert(distinct_plays(plays@, 0, n));
    }
}

/// The squares and tiles `sq` of a play along its line begin with `st`,
/// and any further tile lies on square `end` or after it.
spec fn extends_to(sq: Seq<(int, Tile)>, st: Seq<(int, Tile)>, end: int) -> bool {
    &&& st.len() <= sq.len()
    &&& sq.subrange(0, st.len() as int) == st
    &&& sq.len() > st.len() ==> sq[st.len() as int].0 >= end
}

/// Each play of `plays` from index `from` on begins, along the line, with
/// the tiles `st`, any further tile lying on square `end` or after it.
spec fn extend(plays: Seq<GeneratedPlay>, from: int, v: bool, st: Seq<(int, Tile)>, end: int) -> bool {
    forall|k: int| from <= k < plays.len() ==> extends_to(in_line((#[trigger] plays[k]).tile_positions@, v), st, end)
}

/// No two plays of `plays` from index `from` on place the same tiles on
/// the same squares.
spec fn all_distinct(plays: Seq<GeneratedPlay>, from: int, v: bool) -> bool {
    distinct_plays(plays, from, plays.len() as int)
}

/// The plays added by a check of the word so far (at most one, placing
/// exactly the tiles `st`), followed by plays added after it that place
/// more tiles: together they begin with `st`, any further tile lying on
/// square `end` or after it, no two are the same, and all complete their
/// words from `start`.
proof fn lemma_join<F: Fsm>(
    f: &F,
    b: Seq<Option<Tile>>,
    p0: Seq<GeneratedPlay>,
    p1: Seq<GeneratedPlay>,
    p2: Seq<GeneratedPlay>,
    v: bool,
    st: Seq<(int, Tile)>,
    end: int,
    start: int,
)
    requires
        p0.len() <= p1.len() <= p2.len(),
        p1.len() <= p0.len() + 1,
        forall|k: int| 0 <= k < p0.len() ==> #[trigger] p1[k] == p0[k],
        forall|k: int| 0 <= k < p1.len() ==> #[trigger] p2[k] == p1[k],
        forall|k: int| p0.len() <= k < p1.len() ==> in_line((#[trigger] p1[k]).tile_positions@, v) == st,
        extend(p2, p1.len() as int, v, st, end),
        p1.len() > p0.len() ==> longer(p2, p1.len() as int, v, st.len() as int),
        all_distinct(p2, p1.len() as int, v),
        from_start(f, b, p1, p0.len() as int, v, start),
        from_start(f, b, p2, p1.len() as int, v, start),
    ensures
        extend(p2, p0.len() as int, v, st, end),
        all_distinct(p2, p0.len() as int, v),
        from_start(f, b, p2, p0.len() as int, v, start),
{
    assert forall|k: int| p0.len() <= k < p2.len() implies extends_to(
        in_line((#[trigger] p2[k]).tile_positions@, v),
        st,
        end,
    ) by {
        if k < p1.len() {
            assert(p2[k] == p1[k]);
            assert(in_line(p1[k].tile_positions@, v).subrange(0, st.len() as int) =~= st);
        }
    }
    assert forall|i: int, j: int| p0.len() <= i < j < p2.len() implies (#[trigger] p2[i]).tile_positions@
        != (#[trigger] p2[j]).tile_positions@ by {
        if i < p1.len() {
            assert(p2[i] == p1[i]);
            if j < p1.len() {
                assert(false);
            } else {
                assert(in_line(p2[j].tile_positions@, v).len() > st.len());
            }
        }
    }
    assert forall|k: int| p0.len() <= k < p2.len() implies starts_word(
        f,
        b,
        (#[trigger] p2[k]).tile_positions@,
        v,
        start,
    ) by {
        if k < p1.len() {
            assert(p2[k] == p1[k]);
        }
    }
}

/// Each play of `plays` from index `from` on places more than `m` tiles.
spec fn longer(plays: Seq<GeneratedPlay>, from: int, v: bool, m: int) -> bool {
    forall|k: int| from <= k < plays.len() ==> in_line((#[trigger] plays[k]).tile_positions@, v).len() > m
}

/// Each play of `plays` from index `from` on completes its word from
/// square `start` of its line.
spec fn from_start<F: Fsm>(f: &F, b: Seq<Option<Tile>>, plays: Seq<GeneratedPlay>, from: int, v: bool, start: int) -> bool {
    forall|k: int| from <= k < plays.len() ==> starts_word(f, b, (#[trigger] plays[k]).tile_positions@, v, start)
}

/// The tiles `tp` complete a word from square `start` of their line.
spec fn starts_word<F: Fsm>(f: &F, b: Seq<Option<Tile>>, tp: Seq<(Pos, Tile)>, v: bool, start: int) -> bool {
    exists|e: int| forms_word(f, b, tp, v, start, e)
}

/// Further tiles from square `e1` on lie from any earlier square `e2` on.
proof fn lemma_extend_from(plays: Seq<GeneratedPlay>, from: int, v: bool, st: Seq<(int, Tile)>, e1: int, e2: int)
    requires
        extend(plays, from, v, st, e1),
        e2 <= e1,
    ensures
        extend(plays, from, v, st, e2),
{
}

/// Each play of `plays` from index `from` on places, along the line, the
/// tiles `st`, then a tile on square `p` standing for the letter of one of
/// the first `j` transitions `ts`.
spec fn tried(
    plays: Seq<GeneratedPlay>,
    from: int,
    v: bool,
    st: Seq<(int, Tile)>,
    p: int,
    ts: Seq<(Letter, StateId)>,
    j: int,
) -> bool {
    forall|k: int|
        from <= k < plays.len() ==> {
            let sq = in_line((#[trigger] plays[k]).tile_positions@, v);
            &&& sq.len() > st.len()
            &&& sq.subrange(0, st.len() as int) == st
            &&& sq[st.len() as int].0 == p
            &&& exists|j2: int| 0 <= j2 < j && sq[st.len() as int].1.spec_letter() == Some((#[trigger] ts[j2]).0)
        }
}

/// Trying the letter of transition `j` on square `p`, as a tile and then
/// as a blank, adds plays distinct from each other and from those of the
/// earlier transitions.
proof fn lemma_tried(
    pa: Seq<GeneratedPlay>,
    pb: Seq<GeneratedPlay>,
    pc: Seq<GeneratedPlay>,
    from: int,
    v: bool,
    st: Seq<(int, Tile)>,
    p: int,
    ts: Seq<(Letter, StateId)>,
    j: int,
)
    requires
        0 <= from <= pa.len() <= pb.len() <= pc.len(),
        forall|k: int| 0 <= k < pa.len() ==> #[trigger] pb[k] == pa[k],
        forall|k: int| 0 <= k < pb.len() ==> #[trigger] pc[k] == pb[k],
        0 <= j < ts.len(),
        forall|a: int, b: int| 0 <= a < b < ts.len() ==> (#[trigger] ts[a]).0 != (#[trigger] ts[b]).0,
        tried(pa, from, v, st, p, ts, j),
        all_distinct(pa, from, v),
        extend(pb, pa.len() as int, v, st.push((p, Tile::Letter(ts[j].0))), p + 1),
        all_distinct(pb, pa.len() as int, v),
        extend(pc, pb.len() as int, v, st.push((p, Tile::Blank(Some(ts[j].0)))), p + 1),
        all_distinct(pc, pb.len() as int, v),
    ensures
        tried(pc, from, v, st, p, ts, j + 1),
        all_distinct(pc, from, v),
{
    let m = st.len() as int;
    let l = ts[j].0;
    assert forall|k: int| pa.len() <= k < pc.len() implies {
        let sq = in_line((#[trigger] pc[k]).tile_positions@, v);
        &&& sq.len() > m
        &&& sq.subrange(0, m) == st
        &&& sq[m].0 == p
        &&& sq[m].1.spec_letter() == Some(l)
        &&& (k < pb.len() ==> sq[m].1 == Tile::Letter(l))
        &&& (k >= pb.len() ==> sq[m].1 == Tile::Blank(Some(l)))
    } by {
        let sq = in_line(pc[k].tile_positions@, v);
        let t = if k < pb.len() {
            assert(pc[k] == pb[k]);
            Tile::Letter(l)
        } else {
            Tile::Blank(Some(l))
        };
        let st2 = st.push((p, t));
        assert(extends_to(sq, st2, p + 1));
        assert(sq.subrange(0, m + 1) == st2);
        assert(sq[m] == sq.subrange(0, m + 1)[m]);
        assert(sq.subrange(0, m) =~= sq.subrange(0, m + 1).subrange(0, m));
        assert(st2.subrange(0, m) =~= st);
    }
    assert forall|k: int| from <= k < pc.len() implies {
        let sq = in_line((#[trigger] pc[k]).tile_positions@, v);
        &&& sq.len() > m
        &&& sq.subrange(0, m) == st
        &&& sq[m].0 == p
        &&& exists|j2: int| 0 <= j2 < j + 1 && sq[m].1.spec_letter() == Some((#[trigger] ts[j2]).0)
    } by {
        let sq = in_line(pc[k].tile_positions@, v);
        if k < pa.len() {
            assert(pc[k] == pa[k]);
        } else {
            assert(sq[m].1.spec_letter() == Some(ts[j].0));
        }
    }
    assert forall|i: int, k: int| from <= i < k < pc.len() implies (#[trigger] pc[i]).tile_positions@
        != (#[trigger] pc[k]).tile_positions@ by {
        let si = in_line(pc[i].tile_positions@, v);
        let sk = in_line(pc[k].tile_positions@, v);
        if k < pa.len() {
            assert(pc[i] == pa[i] && pc[k] == pa[k]);
        } else if i < pa.len() {
            assert(pc[i] == pa[i]);
            let j2 = choose|j2: int| 0 <= j2 < j && si[m].1.spec_letter() == Some((#[trigger] ts[j2]).0);
            assert(ts[j2].0 != ts[j].0);
            assert(si[m] != sk[m]);
        } else if k < pb.len() {
            assert(pc[i] == pb[i] && pc[k] == pb[k]);
        } else if i < pb.len() {
            assert(si[m] != sk[m]);
        }
    }
}

/// The word that the tiles `tp` complete starts on a square outside
/// `pending`.
spec fn started_before<F: Fsm>(f: &F, b: Seq<Option<Tile>>, tp: Seq<(Pos, Tile)>, v: bool, pending: Set<int>) -> bool {
    exists|s: int, e: int| !pending.contains(s) && #[trigger] forms_word(f, b, tp, v, s, e)
}

/// A word completed by a play starts on one square only.
proof fn lemma_start_unique<F: Fsm>(
    f: &F,
    b: Seq<Option<Tile>>,
    tp: Seq<(Pos, Tile)>,
    v: bool,
    s1: int,
    e1: int,
    s2: int,
    e2: int,
)
    requires
        forms_word(f, b, tp, v, s1, e1),
        forms_word(f, b, tp, v, s2, e2),
    ensures
        s1 == s2,
{
    let g = oriented(place_all(b, tp), v);
    let q = board_pos(tp[0].0@, v);
    if s1 < s2 {
        assert(s2 <= q < e1);
        assert(letter_at(g, s2 - 1) is Some);
    } else if s2 < s1 {
        assert(s1 <= q < e2);
        assert(letter_at(g, s1 - 1) is Some);
    }
}

/// Stepping east stays in the row, one square on, until the row ends.
proof fn lemma_east(p: Pos)
    requires
        0 <= p@ < 225,
    ensures
        match p.spec_offset(Direction::East, 1) {
            Some(q) => q@ == p@ + 1 && q@ / 15 == p@ / 15 && q@ % 15 == p@ % 15 + 1,
            None => p@ % 15 == 14,
        },
{
    let r = p@ / 15;
    let c = p@ % 15;
    assert(p.spec_row() == r && p.spec_col() == c);
    if c + 1 < 15 {
        let i = r * 15 + c + 1;
        assert(i == p@ + 1);
        assert(Pos::at(i)@ == i);
        assert(i / 15 == r && i % 15 == c + 1) by {
            vstd::arithmetic::div_mod::lemma_fundamental_div_mod_converse(i, 15, r, c + 1);
        }
    }
}

/// Three to a power grows with the power.
proof fn lemma_pow3_le(a: nat, b: nat)
    requires
        a <= b,
    ensures
        pow3(a) <= pow3(b),
        b <= 7 ==> pow3(b) <= 2187,
    decreases b - a,
{
    if a < b {
        lemma_pow3_le(a, (b - 1) as nat);
    }
    if b <= 7 {
        reveal_with_fuel(pow3, 8);
        lemma_pow3_mono_to(b, 7);
    }
}

proof fn lemma_pow3_mono_to(a: nat, b: nat)
    requires
        a <= b,
    ensures
        pow3(a) <= pow3(b),
    decreases b - a,
{
    if a < b {
        lemma_pow3_mono_to(a, (b - 1) as nat);
    }
}

} // verus!
