//! Scoring a word of a play.
use crate::error::{GameError, GameResult};
use crate::game::tile::Tile;
use crate::util::bitboard::BitBoard;
use crate::game::tile::Letter;
use crate::util::fsm::{accepts_word, run, Fsm, StateId};
use crate::util::pos::{multipliers_at, Pos};
use crate::util::words::Word;
use vstd::prelude::*;

verus! {

/// The letter, tile and word multipliers that a tile on `pos` earns: the
/// premium of the square when the tile was just placed there, none
/// otherwise.
pub open spec fn earned_multipliers(pos: int, new: Set<int>) -> (nat, nat) {
    if new.contains(pos) {
        multipliers_at(pos)
    } else {
        (1, 1)
    }
}

/// Reading the first `k` tiles of `items` through the machine: the state
/// reached, the sum of the multiplied tile scores, and the product of the
/// word multipliers; or the first error met.
pub open spec fn score_fold<F: Fsm>(f: &F, items: Seq<(int, Tile)>, new: Set<int>, k: nat) -> GameResult<(StateId, int, int)>
    decreases k,
{
    if k == 0 {
        Ok((f.spec_initial(), 0, 1))
    } else {
        match score_fold(f, items, new, (k - 1) as nat) {
            Err(e) => Err(e),
            Ok((s, sum, mult)) => {
                let (pos, tile) = items[k - 1];
                match tile.spec_letter() {
                    None => Err(GameError::MissingLetter),
                    Some(l) => match f.spec_step(s, l) {
                        None => Err(GameError::InvalidWord),
                        Some(t) => {
                            let (tm, wm) = earned_multipliers(pos, new);
                            Ok((t, sum + tm * tile.spec_score(), mult * wm))
                        },
                    },
                }
            },
        }
    }
}

/// The score of the word `items`, whose tiles on the squares of `new` were
/// just placed: the sum of the tile scores, each times its letter
/// multiplier, times the product of the word multipliers; or why the word
/// is refused.
pub open spec fn spec_score<F: Fsm>(f: &F, items: Seq<(int, Tile)>, new: Set<int>) -> GameResult<int> {
    match score_fold(f, items, new, items.len()) {
        Err(e) => Err(e),
        Ok((s, sum, mult)) => if f.spec_terminal(s) {
            Ok(mult * sum)
        } else {
            Err(GameError::InvalidWord)
        },
    }
}

/// Three to the power `k`.
pub open spec fn pow3(k: nat) -> nat
    decreases k,
{
    if k == 0 {
        1
    } else {
        3 * pow3((k - 1) as nat)
    }
}

proof fn lemma_pow3_mono(a: nat, b: nat)
    requires
        a <= b,
    ensures
        pow3(a) <= pow3(b),
    decreases b - a,
{
    if a < b {
        lemma_pow3_mono(a, (b - 1) as nat);
    }
}

/// Three to the seventh.
proof fn lemma_pow3_seven()
    ensures
        pow3(7) == 2187,
{
    reveal_with_fuel(pow3, 8);
}

/// A word multiplier of at most three per new square stays within a power
/// of three in the number of new squares read.
proof fn lemma_multiplier_step(wm: int, m: int, n: nat, is_new: bool)
    requires
        1 <= wm <= pow3(n),
        1 <= m <= 3,
        !is_new ==> m == 1,
    ensures
        1 <= wm * m <= pow3(if is_new { n + 1 } else { n }),
{
    assert(pow3(n + 1) == 3 * pow3(n));
    assert(1 <= wm * m <= pow3(n) * m) by (nonlinear_arith)
        requires
            1 <= wm <= pow3(n),
            1 <= m,
    ;
    assert(pow3(n) * m <= pow3(n) * 3) by (nonlinear_arith)
        requires
            m <= 3,
            pow3(n) >= 0,
    ;
}

/// Once reading fails, the error stands.
proof fn lemma_fold_err<F: Fsm>(f: &F, items: Seq<(int, Tile)>, new: Set<int>, k: nat, n: nat)
    requires
        k <= n,
        score_fold(f, items, new, k) is Err,
    ensures
        score_fold(f, items, new, n) == score_fold(f, items, new, k),
    decreases n - k,
{
    if k < n {
        lemma_fold_err(f, items, new, k, (n - 1) as nat);
    }
}

/// The face values of the tiles of `items`, each times three, two or one
/// as its square is a triple or double letter square just covered or not.
pub open spec fn letter_total(items: Seq<(int, Tile)>, new: Set<int>) -> int
    decreases items.len(),
{
    if items.len() == 0 {
        0
    } else {
        let (pos, tile) = items.last();
        letter_total(items.drop_last(), new) + (if new.contains(pos) {
            multipliers_at(pos).0 as int
        } else {
            1int
        }) * tile.spec_score()
    }
}

/// The product of the word premiums of the squares of `items` just covered.
pub open spec fn word_premium(items: Seq<(int, Tile)>, new: Set<int>) -> int
    decreases items.len(),
{
    if items.len() == 0 {
        1
    } else {
        let pos = items.last().0;
        word_premium(items.drop_last(), new) * if new.contains(pos) {
            multipliers_at(pos).1 as int
        } else {
            1int
        }
    }
}

/// The letters the tiles of `items` stand for.
pub open spec fn item_letters(items: Seq<(int, Tile)>) -> Seq<Letter> {
    items.map_values(|it: (int, Tile)| it.1.spec_letter()->0)
}

/// Reading the first `k` tiles, each standing for a letter: the state the
/// machine reaches on their letters, the premium-weighted total of their
/// values and the product of the word premiums; or the word is refused
/// once the machine cannot follow.
proof fn lemma_fold_reads<F: Fsm>(f: &F, items: Seq<(int, Tile)>, new: Set<int>, k: nat)
    requires
        k <= items.len(),
        forall|j: int| 0 <= j < items.len() ==> (#[trigger] items[j]).1.spec_letter() is Some,
    ensures
        score_fold(f, items, new, k) == match run(f, f.spec_initial(), item_letters(items).take(k as int)) {
            Some(s) => Ok::<(StateId, int, int), GameError>(
                (s, letter_total(items.take(k as int), new), word_premium(items.take(k as int), new)),
            ),
            None => Err(GameError::InvalidWord),
        },
    decreases k,
{
    if k > 0 {
        lemma_fold_reads(f, items, new, (k - 1) as nat);
        let ls = item_letters(items);
        assert(ls.take(k as int).drop_last() =~= ls.take(k - 1));
        assert(items.take(k as int).drop_last() =~= items.take(k - 1));
        assert(ls.take(k as int).last() == items[k - 1].1.spec_letter()->0);
        assert(items.take(k as int).last() == items[k - 1]);
        let (pos, tile) = items[k - 1];
        let em = earned_multipliers(pos, new);
        assert(em.0 == (if new.contains(pos) { multipliers_at(pos).0 as int } else { 1int }));
        assert(em.1 == (if new.contains(pos) { multipliers_at(pos).1 as int } else { 1int }));
    } else {
        assert(item_letters(items).take(0) =~= Seq::<Letter>::empty());
        assert(items.take(0) =~= Seq::<(int, Tile)>::empty());
    }
}

/// The score of a word of tiles each standing for a letter: when the
/// machine accepts its letters, the face values of its tiles, each
/// multiplied by the letter premium of its square if the tile was just
/// placed there, added up and multiplied by the word premiums of the
/// squares just covered; a word the machine does not accept is refused.
/// Tiles placed before count at face value, under no premium.
pub proof fn law_word_score<F: Fsm>(f: &F, items: Seq<(int, Tile)>, new: Set<int>)
    requires
        forall|j: int| 0 <= j < items.len() ==> (#[trigger] items[j]).1.spec_letter() is Some,
    ensures
        spec_score(f, items, new) == if accepts_word(f, item_letters(items)) {
            Ok::<int, GameError>(word_premium(items, new) * letter_total(items, new))
        } else {
            Err::<int, GameError>(GameError::InvalidWord)
        },
{
    lemma_fold_reads(f, items, new, items.len());
    assert(item_letters(items).take(items.len() as int) =~= item_letters(items));
    assert(items.take(items.len() as int) =~= items);
}

/// Validates a word and finds its score. `new` holds the tiles just
/// placed, at most the seven of a rack.
pub fn score<F: Fsm>(word: Word<'_>, new: &BitBoard, fsm: &F) -> (r: GameResult<usize>)
    requires
        new@.len() <= 7,
    ensures
        r matches Ok(v) ==> spec_score(fsm, word.spec_items(), new@) == Ok::<int, GameError>(v as int)
            && v <= 65610 * word.spec_items().len() && v <= 14762250,
        r matches Err(e) ==> spec_score(fsm, word.spec_items(), new@) == Err::<int, GameError>(e),
{
    let ghost items = word.spec_items();
    let ghost first = items[0].0;
    proof {
        word.lemma_items_consecutive();
        BitBoard::lemma_view_bounded(*new);
    }
    let mut rest = word;
    let mut sum: usize = 0;
    let mut word_multiplier: usize = 1;
    let mut curr_state = fsm.initial_state();
    let mut i: usize = 0;
    let ghost mut seen: Set<int> = Set::empty();
    loop
        invariant_except_break
            rest.spec_items() == items.subrange(i as int, items.len() as int),
        invariant
            items == word.spec_items(),
            i <= items.len(),
            i <= 225,
            forall|k: int| 0 <= k < items.len() ==> #[trigger] items[k].0 == first + k,
            i > 0 ==> first >= 0,
            fsm.spec_valid(curr_state),
            score_fold(fsm, items, new@, i as nat) == Ok::<(StateId, int, int), GameError>((curr_state, sum as int, word_multiplier as int)),
            sum <= 30 * i,
            new@.len() <= 7,
            new@.finite(),
            seen.subset_of(new@),
            seen.finite(),
            forall|x: int| seen.contains(x) ==> x < first + i,
            1 <= word_multiplier <= pow3(seen.len()),
        ensures
            i == items.len(),
        decreases items.len() - i,
    {
        let ghost before = rest.spec_items();
        let (pos, tile) = match rest.next() {
            Some(pt) => pt,
            None => {
                break;
            },
        };
        proof {
            assert(items[i as int] == before[0]);
            assert(items[i as int].0 == first + i);
            assert(pos@ == first + i);
        }
        let idx = pos.index();
        proof {
            assert(i < 225);
            assert(i > 0 || first >= 0);
        }
        let letter = match tile.letter() {
            Ok(l) => l,
            Err(e) => {
                proof {
                    assert(score_fold(fsm, items, new@, (i + 1) as nat) == Err::<(StateId, int, int), GameError>(e));
                    lemma_fold_err(fsm, items, new@, (i + 1) as nat, items.len());
                    assert(score_fold(fsm, items, new@, items.len()) == Err::<(StateId, int, int), GameError>(e));
                    assert(spec_score(fsm, items, new@) == Err::<int, GameError>(e));
                }
                return Err(e);
            },
        };
        curr_state = match fsm.step(curr_state, letter) {
            Some(s) => s,
            None => {
                proof {
                    assert(score_fold(fsm, items, new@, (i + 1) as nat) == Err::<(StateId, int, int), GameError>(GameError::InvalidWord));
                    lemma_fold_err(fsm, items, new@, (i + 1) as nat, items.len());
                }
                return Err(GameError::InvalidWord);
            },
        };
        let is_new = new.is_set(pos);
        let (tile_m, word_m) = if is_new {
            pos.premium_multipliers()
        } else {
            (1, 1)
        };
        proof {
            let n = seen.len();
            if is_new {
                assert(!seen.contains(pos@));
                seen = seen.insert(pos@);
                assert(seen.len() == n + 1);
            }
            lemma_multiplier_step(word_multiplier as int, word_m as int, n, is_new);
            vstd::set_lib::lemma_len_subset(seen, new@);
            lemma_pow3_mono(seen.len(), 7);
            lemma_pow3_seven();
        }
        let sc = tile.score();
        proof {
            assert(tile_m * sc <= 30) by (nonlinear_arith)
                requires
                    tile_m <= 3,
                    sc <= 10,
            ;
        }
        word_multiplier = word_multiplier * word_m;
        sum = sum + tile_m * sc;
        i = i + 1;
        proof {
            assert(rest.spec_items() =~= items.subrange(i as int, items.len() as int));
        }
    }
    proof {
        vstd::set_lib::lemma_len_subset(seen, new@);
        lemma_pow3_mono(seen.len(), 7);
        lemma_pow3_seven();
        assert(word_multiplier * sum <= 2187 * 6750) by (nonlinear_arith)
            requires
                word_multiplier <= 2187,
                sum <= 6750,
        ;
        assert(word_multiplier * sum <= 65610 * i) by (nonlinear_arith)
            requires
                word_multiplier <= 2187,
                sum <= 30 * i,
        ;
    }
    if fsm.is_terminal(curr_state) {
        Ok(word_multiplier * sum)
    } else {
        Err(GameError::InvalidWord)
    }
}

} // verus!
