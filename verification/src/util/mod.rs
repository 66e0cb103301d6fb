//! Functions and structures used across the library.
pub mod bitboard;
pub mod fsm;
pub mod grid;
pub mod layout;
pub mod pos;


pub mod scoring;
pub mod tile_counts;
pub mod word_boundaries;

pub mod words;

use crate::error::{GameError, GameResult};
use crate::util::bitboard::{east_of, north_of, south_of, west_of, BitBoard};
use crate::util::pos::Pos;
use vstd::prelude::*;
use vstd::set_lib::set_int_range;

verus! {

broadcast use crate::util::bitboard::group_bitboard;

/// Squares `a` and `b` of the board touch: one is directly above, below,
/// left or right of the other.
pub open spec fn adjacent(a: int, b: int) -> bool {
    &&& 0 <= a < 225
    &&& 0 <= b < 225
    &&& (b == a + 15 || b == a - 15 || (b == a + 1 && a % 15 != 14) || (b == a - 1 && a % 15 != 0))
}

/// `p` is a walk over squares of `n`, each touching the next, whose first
/// square touches a square of `c`.
pub open spec fn is_walk(c: Set<int>, n: Set<int>, p: Seq<int>) -> bool {
    &&& p.len() >= 1
    &&& forall|k: int| 0 <= k < p.len() ==> n.contains(#[trigger] p[k])
    &&& exists|a: int| c.contains(a) && adjacent(a, p[0])
    &&& forall|k: int| 0 <= k < p.len() - 1 ==> adjacent(#[trigger] p[k], p[k + 1])
}

/// Square `x` can be reached from the squares of `c` by stepping between
/// touching squares of `n`.
pub open spec fn joined(c: Set<int>, n: Set<int>, x: int) -> bool {
    exists|p: Seq<int>| is_walk(c, n, p) && p.last() == x
}

/// The squares that touch a square of `s`, in one of the four directions.
pub open spec fn touching(s: Set<int>) -> Set<int> {
    north_of(s).union(south_of(s)).union(west_of(s)).union(east_of(s))
}

/// A square touching a square of `s` is among the squares touching `s`.
proof fn lemma_touching(s: Set<int>, a: int, y: int)
    requires
        s.contains(a),
        adjacent(a, y),
    ensures
        touching(s).contains(y),
{
    if y == a + 15 {
        assert(south_of(s).contains(y));
    } else if y == a - 15 {
        assert(north_of(s).contains(y));
    } else if y == a + 1 {
        assert(east_of(s).contains(y));
    } else {
        assert(west_of(s).contains(y));
    }
}

/// A square touching `s` has a touching square in `s`.
proof fn lemma_touching_witness(s: Set<int>, y: int) -> (a: int)
    requires
        touching(s).contains(y),
        s.subset_of(set_int_range(0, 225)),
    ensures
        s.contains(a),
        adjacent(a, y),
{
    if north_of(s).contains(y) {
        y + 15
    } else if south_of(s).contains(y) {
        y - 15
    } else if west_of(s).contains(y) {
        y + 1
    } else {
        y - 1
    }
}

/// When nothing of `rem` touches `conn`, no walk from `c` (inside `conn`)
/// over `n` (inside `conn` and `rem`) ever enters `rem`.
proof fn lemma_walk_stays(c: Set<int>, n: Set<int>, conn: Set<int>, rem: Set<int>, p: Seq<int>, k: int)
    requires
        is_walk(c, n, p),
        c.subset_of(conn),
        n.subset_of(conn.union(rem)),
        conn.disjoint(rem),
        touching(conn).intersect(rem) == Set::<int>::empty(),
        0 <= k < p.len(),
    ensures
        conn.contains(p[k]),
    decreases k,
{
    let a = if k == 0 {
        choose|a: int| c.contains(a) && adjacent(a, p[0])
    } else {
        lemma_walk_stays(c, n, conn, rem, p, k - 1);
        p[k - 1]
    };
    assert(conn.contains(a) && adjacent(a, p[k]));
    assert(n.contains(p[k]));
    if rem.contains(p[k]) {
        lemma_touching(conn, a, p[k]);
        assert(touching(conn).intersect(rem).contains(p[k]));
    }
}

/// Checks whether every `new` tile is connected orthogonally, through other
/// `new` tiles, to the `connected` tiles, which are assumed to be connected
/// together already. The two boards must not intersect.
pub fn is_connected(connected: BitBoard, new: BitBoard) -> (r: bool)
    requires
        connected@.disjoint(new@),
    ensures
        r == forall|x: int| new@.contains(x) ==> joined(connected@, new@, x),
{
    let ghost c0 = connected@;
    let ghost n0 = new@;
    let mut conn = connected;
    let mut rem = new;
    loop
        invariant
            n0 == new@,
            c0 == connected@,
            conn@ == c0.union(n0.difference(rem@)),
            rem@.subset_of(n0),
            c0.disjoint(n0),
            forall|x: int| n0.difference(rem@).contains(x) ==> joined(c0, n0, x),
        decreases rem@.len(),
    {
        let nb = conn.neighbours().and(rem);
        proof {
            assert(nb@ == touching(conn@).intersect(rem@)) by {
                assert(touching(conn@).intersect(rem@) =~= touching(conn@).difference(conn@).intersect(rem@));
            }
        }
        let ghost old_rem = rem@;
        let ghost old_conn = conn@;
        rem = rem.xor(nb);
        conn = conn.or(nb);
        proof {
            assert(rem@ =~= old_rem.difference(nb@));
            assert(conn@ =~= c0.union(n0.difference(rem@)));
            assert forall|x: int| n0.difference(rem@).contains(x) implies joined(c0, n0, x) by {
                if nb@.contains(x) {
                    BitBoard::lemma_view_bounded(connected);
                    BitBoard::lemma_view_bounded(new);
                    let a = lemma_touching_witness(old_conn, x);
                    if c0.contains(a) {
                        let p = seq![x];
                        assert(is_walk(c0, n0, p));
                        assert(p.last() == x);
                    } else {
                        assert(joined(c0, n0, a));
                        let q = choose|q: Seq<int>| is_walk(c0, n0, q) && q.last() == a;
                        let p = q.push(x);
                        assert(p[0] == q[0]);
                        assert forall|k: int| 0 <= k < p.len() - 1 implies adjacent(#[trigger] p[k], p[k + 1]) by {
                            if k < q.len() - 1 {
                                assert(p[k] == q[k] && p[k + 1] == q[k + 1]);
                            } else {
                                assert(p[k] == a);
                            }
                        }
                        assert forall|k: int| 0 <= k < p.len() implies n0.contains(#[trigger] p[k]) by {
                            if k < q.len() {
                                assert(p[k] == q[k]);
                            }
                        }
                        assert(is_walk(c0, n0, p));
                        assert(p.last() == x);
                    }
                }
            }
        }
        if nb.is_zero() {
            let r = rem.is_zero();
            proof {
                assert(nb@ =~= Set::<int>::empty());
                assert(conn@ =~= old_conn);
                assert(rem@ =~= old_rem);
                assert(conn@.disjoint(rem@));
                if !r {
                    assert(exists|x: int| rem@.contains(x)) by {
                        if !(exists|x: int| rem@.contains(x)) {
                            assert(rem@ =~= Set::<int>::empty());
                        }
                    }
                    let x = choose|x: int| rem@.contains(x);
                    if joined(c0, n0, x) {
                        let p = choose|p: Seq<int>| is_walk(c0, n0, p) && p.last() == x;
                        assert(n0.subset_of(conn@.union(rem@)));
                        assert(touching(conn@).intersect(rem@) =~= Set::<int>::empty());
                        lemma_walk_stays(c0, n0, conn@, rem@, p, p.len() - 1);
                    }
                    assert(!joined(c0, n0, x));
                } else {
                    assert(rem@ =~= Set::<int>::empty());
                    assert forall|x: int| new@.contains(x) implies joined(connected@, new@, x) by {
                        assert(n0.difference(rem@).contains(x));
                    }
                }
            }
            return r;
        }
        proof {
            assert(exists|y: int| nb@.contains(y)) by {
                if !(exists|y: int| nb@.contains(y)) {
                    assert(nb@ =~= Set::<int>::empty());
                }
            }
            let y = choose|y: int| nb@.contains(y);
            assert(rem@.len() < old_rem.len()) by {
                vstd::set_lib::lemma_len_subset(rem@, old_rem.remove(y));
            }
        }
    }
}

/// What validating an occupancy gives: `occ` holds the tiles already on
/// the board and `new` those being placed.
pub open spec fn spec_validate(occ: Set<int>, new: Set<int>) -> GameResult<()> {
    let all = occ.union(new);
    if !occ.disjoint(new) {
        Err(GameError::CoincedentTiles)
    } else if !all.contains(112) {
        Err(GameError::MustIntersectStart)
    } else if all.len() < 2 {
        Err(GameError::WordsNeedTwoLetters)
    } else if !(forall|x: int| new.remove(112).contains(x) ==> joined(occ.insert(112), new.remove(112), x)) {
        Err(GameError::NotConnected)
    } else {
        Ok(())
    }
}

/// Validates a position based on the locations of the tiles. Bitboards
/// provided should be horizontal, ie. the natural layout of the board.
///
/// Ensures that these conditions are met:
/// * The new tiles cannot intersect the old tiles.
/// * The set of all tiles must always contain the start tile.
/// * Every word has at least 2 letters.
/// * There must be a path from the start tile, or from the existing tiles
///   (assumed to be connected together), to any other tile.
pub fn validate_occ_h(occ_h: BitBoard, new_h: BitBoard) -> (r: GameResult<()>)
    ensures
        r == spec_validate(occ_h@, new_h@),
{
    if occ_h.intersects(&new_h) {
        return Err(GameError::CoincedentTiles);
    }
    let occ = occ_h.or(new_h);
    if !occ.is_set(Pos::start()) {
        return Err(GameError::MustIntersectStart);
    }
    if occ.bit_count() < 2 {
        return Err(GameError::WordsNeedTwoLetters);
    }
    let mut connected = occ_h;
    connected.set(Pos::start());
    let mut new_rest = new_h;
    new_rest.clear(Pos::start());
    if is_connected(connected, new_rest) {
        Ok(())
    } else {
        Err(GameError::NotConnected)
    }
}

/// The squares `i` from which a square of `s` lies at most `k` squares to
/// the right, in the same row.
pub open spec fn within_west(s: Set<int>, k: int) -> Set<int> {
    Set::new(|i: int| 0 <= i < 225 && exists|d: int| 0 <= d <= k && i % 15 + d <= 14 && #[trigger] s.contains(i + d))
}

/// The squares on which a horizontal word could start, for a player with
/// `rack_len` tiles: squares next to a tile, above, below or to its left, or
/// the start square, or up to `rack_len - 1` squares to the left of one,
/// that are free; and the first tiles of existing words; leaving out any
/// square with a tile directly to its left, and the rightmost column.
pub open spec fn spec_possible_starts(occ: Set<int>, rack_len: int) -> Set<int> {
    let stems = north_of(occ).union(south_of(occ)).union(west_of(occ)).insert(112);
    let starts = Set::new(|i: int| occ.contains(i) && !crate::util::bitboard::has_left(occ, i));
    within_west(stems, rack_len - 1).difference(occ).union(starts).difference(east_of(occ)).difference(
        crate::util::bitboard::column(14),
    )
}

/// Extending by one more square to the left.
proof fn lemma_within_west_step(s: Set<int>, k: int)
    requires
        k >= 0,
        s.subset_of(set_int_range(0, 225)),
    ensures
        within_west(s, k).union(west_of(within_west(s, k))) == within_west(s, k + 1),
{
    let t = within_west(s, k);
    assert forall|i: int| #[trigger] within_west(s, k + 1).contains(i) implies t.union(west_of(t)).contains(i) by {
        let d = choose|d: int| 0 <= d <= k + 1 && i % 15 + d <= 14 && #[trigger] s.contains(i + d);
        if d <= k {
            assert(t.contains(i));
        } else {
            assert(0 <= i + 1 < 225);
            assert((i + 1) % 15 == i % 15 + 1);
            assert(s.contains((i + 1) + k));
            assert(t.contains(i + 1));
            assert(west_of(t).contains(i));
        }
    }
    assert forall|i: int| #[trigger] t.union(west_of(t)).contains(i) implies within_west(s, k + 1).contains(i) by {
        if t.contains(i) {
            let d = choose|d: int| 0 <= d <= k && i % 15 + d <= 14 && #[trigger] s.contains(i + d);
            assert(s.contains(i + d));
        } else {
            assert(west_of(t).contains(i));
            assert(t.contains(i + 1));
            assert((i + 1) % 15 == i % 15 + 1);
            let d = choose|d: int| 0 <= d <= k && (i + 1) % 15 + d <= 14 && #[trigger] s.contains(i + 1 + d);
            assert(s.contains(i + (d + 1)));
        }
    }
    assert(t.union(west_of(t)) =~= within_west(s, k + 1));
}

/// Gets a bitboard containing the set of squares on which a horizontal word
/// could start, for a player holding `rack_len` tiles.
pub fn possible_starts_h(occ_h: BitBoard, rack_len: usize) -> (r: BitBoard)
    requires
        rack_len >= 1,
    ensures
        r@ == spec_possible_starts(occ_h@, rack_len as int),
{
    let mut stems = occ_h.north().or(occ_h.south()).or(occ_h.west());
    stems.set(Pos::start());
    let ghost s0 = stems@;
    proof {
        BitBoard::lemma_view_bounded(stems);
        assert forall|x: int| s0.contains(x) implies #[trigger] within_west(s0, 0).contains(x) by {
            assert(s0.contains(x + 0));
        }
        assert(within_west(s0, 0) =~= s0);
    }
    let mut i: usize = 0;
    while i < rack_len - 1
        invariant
            i <= rack_len - 1,
            s0.subset_of(set_int_range(0, 225)),
            stems@ == within_west(s0, i as int),
        decreases rack_len - 1 - i,
    {
        proof {
            lemma_within_west_step(s0, i as int);
        }
        stems = stems.or(stems.west());
        i = i + 1;
    }
    let stems = stems.and(occ_h.not());
    let starts = occ_h.word_starts_h();
    let r = stems.or(starts).and(occ_h.east().not()).and(BitBoard::right_col().not());
    proof {
        BitBoard::lemma_view_bounded(occ_h);
        assert(r@ =~= spec_possible_starts(occ_h@, rack_len as int));
    }
    r
}

} // verus!
