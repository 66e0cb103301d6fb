//! What the board's checks make of a generated play: it passes every one
//! of them that comes before the words are read.
use crate::ai::lookup::{above_or_below_of, letter_at};
use crate::ai::movegen::{
    board_pos, cross_total, forms_word, generated, in_line, new_tiles_score, old_tiles_score, oriented, play_values,
    word_formed, word_multiplier, GeneratedPlay,
};
use crate::game::board::{
    common_line, has_duplicate, lemma_place_all, lemma_swapped, occupied, place_all, spec_placement,
    spec_score_words, squares_of, swapped, transposed,
};
use crate::game::tile::Tile;
use crate::util::fsm::Fsm;
use crate::util::{adjacent, is_walk, joined, spec_validate};
use vstd::prelude::*;

verus! {

broadcast use crate::util::pos::group_pos;

/// Square `x` lies in `c`, or a walk over squares of `n` leads to it from
/// a square touching `c`.
spec fn reached(c: Set<int>, n: Set<int>, x: int) -> bool {
    c.contains(x) || joined(c, n, x)
}

/// A step from a reached square to a touching square of `c` or `n`
/// reaches it.
proof fn lemma_step(c: Set<int>, n: Set<int>, x: int, y: int)
    requires
        reached(c, n, x),
        adjacent(x, y),
        c.contains(y) || n.contains(y),
    ensures
        reached(c, n, y),
{
    if !c.contains(y) {
        if c.contains(x) {
            let p = seq![y];
            assert(is_walk(c, n, p));
            assert(p.last() == y);
        } else {
            let p = choose|p: Seq<int>| is_walk(c, n, p) && p.last() == x;
            let p2 = p.push(y);
            assert(p2[0] == p[0]);
            assert forall|k: int| 0 <= k < p2.len() - 1 implies adjacent(#[trigger] p2[k], p2[k + 1]) by {
                if k < p.len() - 1 {
                    assert(p2[k] == p[k] && p2[k + 1] == p[k + 1]);
                } else {
                    assert(p2[k] == x);
                }
            }
            assert forall|k: int| 0 <= k < p2.len() implies n.contains(#[trigger] p2[k]) by {
                if k < p.len() {
                    assert(p2[k] == p[k]);
                }
            }
            assert(is_walk(c, n, p2));
            assert(p2.last() == y);
        }
    }
}

/// Swapping rows and columns keeps squares touching.
proof fn lemma_adjacent_oriented(q1: int, q2: int, v: bool)
    requires
        adjacent(q1, q2),
    ensures
        adjacent(board_pos(q1, v), board_pos(q2, v)),
{
    if v {
        lemma_swapped(q1);
        lemma_swapped(q2);
        let (r1, c1) = (q1 / 15, q1 % 15);
        let (r2, c2) = (q2 / 15, q2 % 15);
        assert(swapped(q1) == c1 * 15 + r1);
        assert(swapped(q2) == c2 * 15 + r2);
        if q2 == q1 + 15 {
            assert(r2 == r1 + 1 && c2 == c1);
        } else if q2 == q1 - 15 {
            assert(r2 == r1 - 1 && c2 == c1);
        } else if q2 == q1 + 1 {
            assert(r2 == r1 && c2 == c1 + 1);
        } else {
            assert(r2 == r1 && c2 == c1 - 1);
        }
    }
}

/// The squares of the word from `s` up to `e` of the line of a play, as
/// squares of the board, each hold an old tile or a new one.
spec fn run_filled(b: Seq<Option<Tile>>, n: Set<int>, v: bool, s: int, e: int) -> bool {
    &&& 0 <= s < e <= 225
    &&& s / 15 == (e - 1) / 15
    &&& forall|q: int| s <= q < e ==> 0 <= #[trigger] board_pos(q, v) < 225
        && (occupied(b).contains(board_pos(q, v)) || n.contains(board_pos(q, v)))
}

/// Reaching one square of the word reaches every square of it from there
/// on to the right.
proof fn lemma_reach_right(b: Seq<Option<Tile>>, n: Set<int>, v: bool, s: int, e: int, q0: int, q1: int)
    requires
        run_filled(b, n, v, s, e),
        s <= q0 <= q1 < e,
        reached(occupied(b).insert(112), n.remove(112), board_pos(q0, v)),
    ensures
        reached(occupied(b).insert(112), n.remove(112), board_pos(q1, v)),
    decreases q1 - q0,
{
    if q0 < q1 {
        lemma_reach_right(b, n, v, s, e, q0, q1 - 1);
        assert(adjacent(q1 - 1, q1));
        lemma_adjacent_oriented(q1 - 1, q1, v);
        assert(board_pos(q1, v) >= 0);
        lemma_step(occupied(b).insert(112), n.remove(112), board_pos(q1 - 1, v), board_pos(q1, v));
    }
}

/// Reaching one square of the word reaches every square of it from there
/// on to the left.
proof fn lemma_reach_left(b: Seq<Option<Tile>>, n: Set<int>, v: bool, s: int, e: int, q0: int, q1: int)
    requires
        run_filled(b, n, v, s, e),
        s <= q1 <= q0 < e,
        reached(occupied(b).insert(112), n.remove(112), board_pos(q0, v)),
    ensures
        reached(occupied(b).insert(112), n.remove(112), board_pos(q1, v)),
    decreases q0 - q1,
{
    if q1 < q0 {
        lemma_reach_left(b, n, v, s, e, q0, q1 + 1);
        assert(adjacent(q1 + 1, q1));
        lemma_adjacent_oriented(q1 + 1, q1, v);
        assert(board_pos(q1, v) >= 0);
        lemma_step(occupied(b).insert(112), n.remove(112), board_pos(q1 + 1, v), board_pos(q1, v));
    }
}

/// Reading the board along the line of a play, each square of the word
/// it forms holds an old tile or one of the play's.
proof fn lemma_run_filled<F: Fsm>(f: &F, b: Seq<Option<Tile>>, tp: Seq<(crate::util::pos::Pos, Tile)>, v: bool, s: int, e: int)
    requires
        b.len() == 225,
        forall|k: int| 0 <= k < tp.len() ==> 0 <= (#[trigger] tp[k]).0@ < 225,
        forms_word(f, b, tp, v, s, e),
    ensures
        run_filled(b, squares_of(tp), v, s, e),
{
    lemma_place_all(b, tp);
    let pa = place_all(b, tp);
    let g = oriented(pa, v);
    assert forall|q: int| s <= q < e implies 0 <= #[trigger] board_pos(q, v) < 225 && (occupied(b).contains(
        board_pos(q, v),
    ) || squares_of(tp).contains(board_pos(q, v))) by {
        lemma_swapped(q);
        assert(letter_at(g, q) is Some);
        assert(g[q] == pa[board_pos(q, v)]);
        if !squares_of(tp).contains(board_pos(q, v)) {
            assert(pa[board_pos(q, v)] == b[board_pos(q, v)]);
        }
    }
}

/// The tiles of a play lie on the word it forms, each at the square of
/// the line that names it.
proof fn lemma_tiles_on_word<F: Fsm>(f: &F, b: Seq<Option<Tile>>, tp: Seq<(crate::util::pos::Pos, Tile)>, v: bool, s: int, e: int)
    requires
        forall|k: int| 0 <= k < tp.len() ==> 0 <= (#[trigger] tp[k]).0@ < 225,
        forms_word(f, b, tp, v, s, e),
    ensures
        forall|k: int| 0 <= k < tp.len() ==> s <= #[trigger] board_pos(tp[k].0@, v) < e
            && board_pos(board_pos(tp[k].0@, v), v) == tp[k].0@,
{
    assert forall|k: int| 0 <= k < tp.len() implies s <= #[trigger] board_pos(tp[k].0@, v) < e
        && board_pos(board_pos(tp[k].0@, v), v) == tp[k].0@ by {
        lemma_swapped(tp[k].0@);
    }
}

/// Some square of the word a play forms is reached from the old tiles or
/// the start square; on an empty board, a tile covers the start square.
proof fn lemma_anchor<F: Fsm>(f: &F, b: Seq<Option<Tile>>, tp: Seq<(crate::util::pos::Pos, Tile)>, v: bool, s: int, e: int) -> (qa: int)
    requires
        b.len() == 225,
        forall|k: int| 0 <= k < tp.len() ==> 0 <= (#[trigger] tp[k]).0@ < 225,
        forms_word(f, b, tp, v, s, e),
    ensures
        s <= qa < e,
        reached(occupied(b).insert(112), squares_of(tp).remove(112), board_pos(qa, v)),
        !(exists|i: int| 0 <= i < 225 && #[trigger] b[i] is Some) ==> squares_of(tp).contains(112),
{
    let occ = occupied(b);
    let n = squares_of(tp);
    let c = occ.insert(112);
    let m = n.remove(112);
    let ob = oriented(b, v);
    lemma_tiles_on_word(f, b, tp, v, s, e);
    if exists|q: int| s <= q < e && #[trigger] letter_at(ob, q) is Some {
        let qa = choose|q: int| s <= q < e && #[trigger] letter_at(ob, q) is Some;
        lemma_swapped(qa);
        assert(ob[qa] == b[board_pos(qa, v)]);
        assert(occ.contains(board_pos(qa, v)));
        assert(b[board_pos(qa, v)] is Some);
        qa
    } else if exists|k: int| 0 <= k < tp.len() && above_or_below_of(ob).contains(board_pos((#[trigger] tp[k]).0@, v)) {
        let k = choose|k: int| 0 <= k < tp.len() && above_or_below_of(ob).contains(board_pos((#[trigger] tp[k]).0@, v));
        let qa = board_pos(tp[k].0@, v);
        let qn = if 0 <= qa + 15 < 225 && ob[qa + 15] is Some {
            qa + 15
        } else {
            qa - 15
        };
        assert(0 <= qn < 225 && ob[qn] is Some);
        lemma_swapped(qn);
        assert(ob[qn] == b[board_pos(qn, v)]);
        assert(b[board_pos(qn, v)] is Some);
        assert(occ.contains(board_pos(qn, v)));
        assert(adjacent(qn, qa));
        lemma_adjacent_oriented(qn, qa, v);
        assert(board_pos(qa, v) == tp[k].0@);
        assert(n.contains(tp[k].0@));
        lemma_step(c, m, board_pos(qn, v), board_pos(qa, v));
        qa
    } else {
        let k = choose|k: int| 0 <= k < tp.len() && board_pos((#[trigger] tp[k]).0@, v) == 112;
        let qa = board_pos(tp[k].0@, v);
        lemma_swapped(112);
        assert(tp[k].0@ == 112);
        assert(n.contains(112));
        qa
    }
}

/// Every new tile off the start square is joined, through new tiles, to
/// the old tiles or to the start square.
proof fn lemma_all_joined<F: Fsm>(f: &F, b: Seq<Option<Tile>>, tp: Seq<(crate::util::pos::Pos, Tile)>, v: bool, s: int, e: int)
    requires
        b.len() == 225,
        forall|k: int| 0 <= k < tp.len() ==> 0 <= (#[trigger] tp[k]).0@ < 225,
        forms_word(f, b, tp, v, s, e),
        occupied(b).disjoint(squares_of(tp)),
    ensures
        forall|x: int| #[trigger] squares_of(tp).remove(112).contains(x) ==> joined(
            occupied(b).insert(112),
            squares_of(tp).remove(112),
            x,
        ),
{
    let n = squares_of(tp);
    let c = occupied(b).insert(112);
    let m = n.remove(112);
    lemma_run_filled(f, b, tp, v, s, e);
    lemma_tiles_on_word(f, b, tp, v, s, e);
    let qa = lemma_anchor(f, b, tp, v, s, e);
    assert forall|x: int| #[trigger] m.contains(x) implies joined(c, m, x) by {
        let k = choose|k: int| 0 <= k < tp.len() && (#[trigger] tp[k]).0@ == x;
        let qx = board_pos(x, v);
        assert(board_pos(qx, v) == x);
        if qa <= qx {
            lemma_reach_right(b, n, v, s, e, qa, qx);
        } else {
            lemma_reach_left(b, n, v, s, e, qa, qx);
        }
        assert(!c.contains(x));
    }
}

/// The old tiles and the new ones are two or more.
proof fn lemma_two_or_more<F: Fsm>(f: &F, b: Seq<Option<Tile>>, tp: Seq<(crate::util::pos::Pos, Tile)>, v: bool, s: int, e: int)
    requires
        b.len() == 225,
        forall|k: int| 0 <= k < tp.len() ==> 0 <= (#[trigger] tp[k]).0@ < 225,
        forms_word(f, b, tp, v, s, e),
    ensures
        occupied(b).union(squares_of(tp)).len() >= 2,
{
    let all = occupied(b).union(squares_of(tp));
    lemma_run_filled(f, b, tp, v, s, e);
    let q1 = s;
    let q2 = s + 1;
    lemma_swapped(q1);
    lemma_swapped(q2);
    let x1 = board_pos(q1, v);
    let x2 = board_pos(q2, v);
    assert(board_pos(q1, v) >= 0 && board_pos(q2, v) >= 0);
    assert(x1 != x2);
    assert(all.contains(x1) && all.contains(x2));
    vstd::set_lib::lemma_int_range(0, 225);
    assert(all.subset_of(vstd::set_lib::set_int_range(0, 225)));
    vstd::set_lib::lemma_len_subset(all, vstd::set_lib::set_int_range(0, 225));
    let two = set![x1, x2];
    assert(two.len() == 2);
    vstd::set_lib::lemma_len_subset(two, all);
}

/// Where the board's tiles all stand for letters and, unless the board is
/// empty, cover the start square, a generated play passes every check
/// that [`crate::game::board::Board::make_placement`] makes before it reads
/// the words: one to seven tiles, no square named twice, one row or one
/// column, only empty squares, the start square covered, two tiles or more
/// on the board, and each new tile joined through new tiles to the old
/// ones or to the start square. What `make_placement` gives for the play
/// is then the score of the words it forms, or the first of them refused.
pub proof fn law_generated_passes_checks<F: Fsm>(f: &F, b: Seq<Option<Tile>>, rack: Seq<usize>, gp: GeneratedPlay)
    requires
        b.len() == 225,
        forall|i: int| 0 <= i < 225 && #[trigger] b[i] is Some ==> letter_at(b, i) is Some,
        (exists|i: int| 0 <= i < 225 && #[trigger] b[i] is Some) ==> b[112] is Some,
        generated(b, rack, gp),
        word_formed(f, b, gp),
    ensures
        spec_placement(f, b, gp.tile_positions@) == spec_score_words(
            f,
            place_all(b, gp.tile_positions@),
            squares_of(gp.tile_positions@),
        ),
{
    let tp = gp.tile_positions@;
    let (v, s, e) = choose|v: bool, s: int, e: int| #[trigger] forms_word(f, b, tp, v, s, e) && play_values(f, b, gp, v, s, e);
    let occ = occupied(b);
    let n = squares_of(tp);
    assert(!has_duplicate(tp)) by {
        if has_duplicate(tp) {
            let (a, a2) = choose|a: int, a2: int| 0 <= a < a2 < tp.len() && (#[trigger] tp[a]).0@ == (#[trigger] tp[a2]).0@;
            assert(tp[a].0@ < tp[a2].0@);
        }
    }
    assert(common_line(tp));
    assert(occ.disjoint(n)) by {
        assert forall|x: int| n.contains(x) implies !occ.contains(x) by {
            let k = choose|k: int| 0 <= k < tp.len() && (#[trigger] tp[k]).0@ == x;
            assert(letter_at(b, tp[k].0@) is None);
        }
    }
    let _ = lemma_anchor(f, b, tp, v, s, e);
    assert(occ.union(n).contains(112)) by {
        if exists|i: int| 0 <= i < 225 && #[trigger] b[i] is Some {
            assert(occ.contains(112));
        }
    }
    lemma_two_or_more(f, b, tp, v, s, e);
    lemma_all_joined(f, b, tp, v, s, e);
    assert(spec_validate(occ, n) == Ok::<(), crate::error::GameError>(()));
}

/// A generated play of seven tiles records fifty points more than its
/// words score; a play of fewer tiles records just what its words score:
/// the tiles along its word (old ones at face value, new ones times their
/// letter premiums) times the new squares' word premiums, plus the words
/// across.
pub proof fn law_generated_seven_tile_bonus<F: Fsm>(f: &F, b: Seq<Option<Tile>>, gp: GeneratedPlay, v: bool, s: int, e: int)
    requires
        play_values(f, b, gp, v, s, e),
    ensures
        ({
            let g = oriented(b, v);
            let sq = in_line(gp.tile_positions@, v);
            let words = (old_tiles_score(g, sq, s, e) + new_tiles_score(sq)) * word_multiplier(sq) + cross_total(f, g, sq);
            &&& gp.tile_positions@.len() == 7 ==> gp.score == words + 50
            &&& gp.tile_positions@.len() != 7 ==> gp.score == words
        }),
{
}

} // verus!
