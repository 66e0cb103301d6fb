//! A computer opponent that plays the highest scoring placement it finds.
use crate::ai::lookup::columns_traversable;
use crate::ai::movegen::{all_moves, gen, GeneratedPlay};
use crate::ai::{last_max, last_max_index};
use crate::game::board::{transposed, Board};
use crate::game::play::Play;
use crate::game::rack::Rack;
use crate::util::fsm::Fsm;
use vstd::prelude::*;

verus! {

/// The key by which plays are ranked: their score.
pub open spec fn score_keys(plays: Seq<GeneratedPlay>) -> Seq<u128> {
    plays.map_values(|p: GeneratedPlay| p.score as u128)
}

/// `r` is what a choice by `keys` among `plays` gives: a pass when there
/// is no play, else the placement of the last play with the greatest key.
pub open spec fn picked(plays: Seq<GeneratedPlay>, keys: Seq<u128>, r: Play) -> bool {
    if plays.len() == 0 {
        r is Pass
    } else {
        exists|i: int|
            #[trigger] last_max(keys, i) && (r matches Play::Place(tp) && tp@
                == plays[i].tile_positions@)
    }
}

/// What the highest scoring player picks among `plays`: nothing when there
/// is no play; otherwise one of them scoring at least as much as every
/// other.
pub proof fn law_highest_score(plays: Seq<GeneratedPlay>, r: Play)
    requires
        picked(plays, score_keys(plays), r),
    ensures
        plays.len() == 0 ==> r is Pass,
        plays.len() > 0 ==> exists|i: int|
            0 <= i < plays.len() && (r matches Play::Place(tp) && tp@ == (#[trigger] plays[i]).tile_positions@)
                && forall|j: int| 0 <= j < plays.len() ==> (#[trigger] plays[j]).score <= plays[i].score,
{
    if plays.len() > 0 {
        let keys = score_keys(plays);
        let i = choose|i: int|
            #[trigger] last_max(keys, i) && (r matches Play::Place(tp) && tp@ == plays[i].tile_positions@);
        assert forall|j: int| 0 <= j < plays.len() implies (#[trigger] plays[j]).score <= plays[i].score by {
            assert(keys[j] <= keys[i]);
        }
    }
}

/// Takes the play at the last greatest key, or passes when there are none.
pub(crate) fn pick_by(plays: Vec<GeneratedPlay>, keys: &Vec<u128>) -> (r: Play)
    requires
        keys@.len() == plays@.len(),
    ensures
        picked(plays@, keys@, r),
{
    let ghost all = plays@;
    match last_max_index(keys) {
        None => Play::Pass,
        Some(i) => {
            let mut plays = plays;
            let gp = plays.remove(i);
            assert(gp == all[i as int]);
            let r = gp.play();
            assert(last_max(keys@, i as int));
            r
        },
    }
}

/// A computer opponent that plays the highest scoring placement
/// unconditionally.
#[derive(Debug, Default)]
pub struct HighestScoring;

impl HighestScoring {
    /// Chooses among `plays` the last with the highest score, or passes
    /// when there are none.
    pub fn pick(&self, plays: Vec<GeneratedPlay>) -> (r: Play)
        ensures
            picked(plays@, score_keys(plays@), r),
    {
        let mut keys: Vec<u128> = Vec::new();
        let mut k: usize = 0;
        while k < plays.len()
            invariant
                k <= plays@.len(),
                keys@ == score_keys(plays@).take(k as int),
            decreases plays@.len() - k,
        {
            keys.push(plays[k].score as u128);
            k = k + 1;
            assert(keys@ =~= score_keys(plays@).take(k as int));
        }
        assert(keys@ =~= score_keys(plays@));
        pick_by(plays, &keys)
    }

    /// Generates the placements open to `rack` on `board` and plays the
    /// highest scoring one, or passes when there is none.
    pub fn select_play<F: Fsm>(&self, fsm: &F, board: &Board, rack: &Rack) -> (r: Play)
        requires
            columns_traversable(fsm, board@),
            columns_traversable(fsm, transposed(board@)),
            rack.spec_len() >= 1,
        ensures
            exists|ps: Seq<GeneratedPlay>| all_moves(fsm, board@, rack@, ps) && #[trigger] picked(ps, score_keys(ps), r),
    {
        let mut plays: Vec<GeneratedPlay> = Vec::new();
        gen(board, rack, fsm, &mut plays);
        let ghost ps = plays@;
        let r = self.pick(plays);
        assert(picked(ps, score_keys(ps), r));
        r
    }
}

} // verus!
