//! Move generation and play selection for a computer opponent.
use crate::game::play::Play;
use crate::game::rack::{Rack, RACK_SIZE};
use crate::game::tile::Tile;
use crate::util::tile_counts::expand;
use vstd::prelude::*;

pub mod highest_scoring;
pub mod longest_word;
pub mod lookup;
pub mod movegen;
pub mod replay;

verus! {

/// Tiles scoring more than this are kept when a player without a play
/// exchanges tiles.
pub const REDRAW_LIMIT: usize = 8;

/// A player without a play puts back tiles worth eight points or less.
pub proof fn law_redraw_limit()
    ensures
        REDRAW_LIMIT == 8,
{
}

/// Whether `i` is the last position of `keys` holding its greatest value.
pub open spec fn last_max(keys: Seq<u128>, i: int) -> bool {
    &&& 0 <= i < keys.len()
    &&& forall|j: int| 0 <= j < keys.len() ==> keys[j] <= keys[i]
    &&& forall|j: int| i < j < keys.len() ==> keys[j] < keys[i]
}

/// The position of the last greatest key, if there are any keys.
pub fn last_max_index(keys: &Vec<u128>) -> (r: Option<usize>)
    ensures
        r is None <==> keys@.len() == 0,
        r matches Some(i) ==> last_max(keys@, i as int),
{
    let mut best: Option<usize> = None;
    let mut i: usize = 0;
    while i < keys.len()
        invariant
            i <= keys@.len(),
            best is None <==> i == 0,
            best matches Some(b) ==> last_max(keys@.take(i as int), b as int),
        decreases keys@.len() - i,
    {
        match best {
            None => {
                best = Some(i);
            },
            Some(b) => {
                if keys[i] >= keys[b] {
                    best = Some(i);
                }
            },
        }
        i = i + 1;
    }
    assert(keys@.take(i as int) =~= keys@);
    best
}

/// The tiles of `tiles` that score at most [`REDRAW_LIMIT`], in order.
pub open spec fn low_tiles(tiles: Seq<Tile>) -> Seq<Tile>
    decreases tiles.len(),
{
    if tiles.len() == 0 {
        Seq::empty()
    } else {
        let rest = low_tiles(tiles.drop_last());
        if tiles.last().spec_score() <= REDRAW_LIMIT {
            rest.push(tiles.last())
        } else {
            rest
        }
    }
}

/// The tiles worth at most eight points are exactly those kept by
/// [`low_tiles`], in their order.
pub proof fn law_low_tiles(tiles: Seq<Tile>)
    ensures
        low_tiles(tiles) == tiles.filter(|t: Tile| t.spec_score() <= 8),
    decreases tiles.len(),
{
    reveal(Seq::filter);
    if tiles.len() > 0 {
        law_low_tiles(tiles.drop_last());
    }
}

/// The tiles a player without a play puts back: the first
/// `letter_bag_len` of the rack's tiles that score at most
/// [`REDRAW_LIMIT`], in order of tile number.
pub open spec fn redraw_tiles(rack: Seq<usize>, letter_bag_len: nat) -> Seq<Tile> {
    let low = low_tiles(expand(rack, 27));
    low.take(if low.len() < letter_bag_len { low.len() as int } else { letter_bag_len as int })
}

/// Chooses the play of a player for whom no placement was found: a full
/// rack puts back its tiles that score at most [`REDRAW_LIMIT`], taking no
/// more than `letter_bag_len`; a rack that is not full, or has no such
/// tile, passes.
pub fn fallback_play(rack: &Rack, letter_bag_len: usize) -> (r: Play)
    ensures
        (rack.spec_len() < RACK_SIZE || redraw_tiles(rack@, letter_bag_len as nat).len() == 0)
            ==> r is Pass,
        !(rack.spec_len() < RACK_SIZE || redraw_tiles(rack@, letter_bag_len as nat).len() == 0)
            ==> (r matches Play::Redraw(t) && t@ == redraw_tiles(rack@, letter_bag_len as nat)),
{
    if rack.len() < RACK_SIZE {
        return Play::Pass;
    }
    let tiles = rack.iter();
    let ghost all = tiles@;
    let mut redraw: Vec<Tile> = Vec::new();
    let mut i: usize = 0;
    while i < tiles.len()
        invariant
            i <= tiles@.len(),
            tiles@ == all,
            redraw@ == ({
                let low = low_tiles(all.take(i as int));
                low.take(if low.len() < letter_bag_len { low.len() as int } else { letter_bag_len as int })
            }),
        decreases tiles@.len() - i,
    {
        let t = tiles[i];
        assert(all.take(i as int + 1).drop_last() =~= all.take(i as int));
        if t.score() <= REDRAW_LIMIT && redraw.len() < letter_bag_len {
            redraw.push(t);
        }
        i = i + 1;
        proof {
            let low = low_tiles(all.take(i as int));
            assert(low.take(if low.len() < letter_bag_len { low.len() as int } else { letter_bag_len as int }) =~= redraw@);
        }
    }
    assert(all.take(i as int) =~= all);
    if redraw.len() == 0 {
        Play::Pass
    } else {
        Play::Redraw(redraw)
    }
}

} // verus!
