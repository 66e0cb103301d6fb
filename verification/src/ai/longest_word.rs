//! A computer opponent that plays the placement with the most tiles,
//! and among those the highest scoring.
use crate::ai::highest_scoring::{pick_by, picked};
use crate::ai::last_max;
use crate::ai::lookup::columns_traversable;
use crate::ai::movegen::{all_moves, gen, GeneratedPlay};
use crate::game::board::{transposed, Board};
use crate::game::play::Play;
use crate::game::rack::Rack;
use crate::util::fsm::Fsm;
use vstd::prelude::*;

verus! {

/// The key by which plays are ranked: a thousand per tile placed, plus
/// the score.
pub open spec fn length_keys(plays: Seq<GeneratedPlay>) -> Seq<u128> {
    plays.map_values(
        |p: GeneratedPlay| (1000 * p.tile_positions@.len() + p.score) as u128,
    )
}

/// What the longest word player picks among `plays`, each of at most
/// seven tiles and scoring under a thousand (so that the score never
/// outweighs a tile): nothing when there is no play; otherwise one of the
/// plays with the most tiles, and among those one with the highest score.
pub proof fn law_longest_then_highest(plays: Seq<GeneratedPlay>, r: Play)
    requires
        picked(plays, length_keys(plays), r),
        forall|j: int| 0 <= j < plays.len() ==> (#[trigger] plays[j]).tile_positions@.len() <= 7 && plays[j].score
            < 1000,
    ensures
        plays.len() == 0 ==> r is Pass,
        plays.len() > 0 ==> exists|i: int|
            0 <= i < plays.len() && (r matches Play::Place(tp) && tp@ == (#[trigger] plays[i]).tile_positions@)
                && forall|j: int|
                0 <= j < plays.len() ==> (#[trigger] plays[j]).tile_positions@.len() <= plays[i].tile_positions@.len()
                    && (plays[j].tile_positions@.len() == plays[i].tile_positions@.len() ==> plays[j].score
                    <= plays[i].score),
{
    if plays.len() > 0 {
        let keys = length_keys(plays);
        let i = choose|i: int|
            #[trigger] last_max(keys, i) && (r matches Play::Place(tp) && tp@ == plays[i].tile_positions@);
        assert forall|j: int| 0 <= j < plays.len() implies (#[trigger] plays[j]).tile_positions@.len()
            <= plays[i].tile_positions@.len() && (plays[j].tile_positions@.len() == plays[i].tile_positions@.len()
            ==> plays[j].score <= plays[i].score) by {
            assert(keys[j] <= keys[i]);
            assert(keys[j] == 1000 * plays[j].tile_positions@.len() + plays[j].score);
            assert(keys[i] == 1000 * plays[i].tile_positions@.len() + plays[i].score);
        }
    }
}

/// A computer opponent that plays the placement with the most tiles,
/// breaking ties by score.
#[derive(Debug, Default)]
pub struct LongestWord;

impl LongestWord {
    /// Chooses among `plays` the last with the greatest key of
    /// [`length_keys`], or passes when there are none.
    pub fn pick(&self, plays: Vec<GeneratedPlay>) -> (r: Play)
        ensures
            picked(plays@, length_keys(plays@), r),
    {
        let mut keys: Vec<u128> = Vec::new();
        let mut k: usize = 0;
        while k < plays.len()
            invariant
                k <= plays@.len(),
                keys@ == length_keys(plays@).take(k as int),
            decreases plays@.len() - k,
        {
            let n = plays[k].tile_positions.len() as u128;
            let s = plays[k].score as u128;
            assert(n <= u64::MAX && s <= u64::MAX);
            keys.push(1000 * n + s);
            k = k + 1;
            assert(keys@ =~= length_keys(plays@).take(k as int));
        }
        assert(keys@ =~= length_keys(plays@));
        pick_by(plays, &keys)
    }

    /// Generates the placements open to `rack` on `board` and plays the one
    /// with the most tiles, the highest scoring among those; or passes when
    /// there is none.
    pub fn select_play<F: Fsm>(&self, fsm: &F, board: &Board, rack: &Rack) -> (r: Play)
        requires
            columns_traversable(fsm, board@),
            columns_traversable(fsm, transposed(board@)),
            rack.spec_len() >= 1,
        ensures
            exists|ps: Seq<GeneratedPlay>| all_moves(fsm, board@, rack@, ps) && #[trigger] picked(ps, length_keys(ps), r),
    {
        let mut plays: Vec<GeneratedPlay> = Vec::new();
        gen(board, rack, fsm, &mut plays);
        let ghost ps = plays@;
        let r = self.pick(plays);
        assert(picked(ps, length_keys(ps), r));
        r
    }
}

} // verus!
