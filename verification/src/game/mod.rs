//! Game state: tiles, racks, the letter bag, the board and players, and
//! the rules that decide whose turn it is and when the game ends.
pub mod board;
pub mod letter_bag;
pub mod play;
pub mod rack;
pub mod tile;
pub mod word_tree;

use crate::error::{GameError, GameResult};
use crate::game::board::{board_count, occupied, place_all, spec_placement, Board};
use crate::game::letter_bag::{initial_count_of, LetterBag};
use crate::game::play::Play;
use crate::game::rack::{Rack, RACK_SIZE};
use crate::game::tile::Tile;
use crate::util::fsm::Fsm;
use crate::util::pos::Pos;
use crate::util::tile_counts::{count_in, score_sum};
use vstd::prelude::*;

verus! {

/// Models a scrabble player.
#[derive(Debug)]
pub struct Player {
    rack: Rack,
    score: usize,
    pass_count: usize,
}

impl Player {
    /// The player's rack.
    pub closed spec fn spec_rack(&self) -> Rack {
        self.rack
    }

    /// The player's running score.
    pub closed spec fn spec_score(&self) -> nat {
        self.score as nat
    }

    /// How many times in a row the player has passed.
    pub closed spec fn spec_pass_count(&self) -> nat {
        self.pass_count as nat
    }

    /// Gets the player's rack.
    pub fn rack(&self) -> (r: &Rack)
        ensures
            *r == self.spec_rack(),
    {
        &self.rack
    }

    /// Gets the player's score.
    pub fn score(&self) -> (r: usize)
        ensures
            r == self.spec_score(),
    {
        self.score
    }
}

/// Used to identify players within a [`Game`], numbered from zero in
/// turn order.
#[derive(Debug, Clone, Copy, PartialEq, Eq, Structural, PartialOrd, Ord, Hash)]
pub struct PlayerNum(usize);

impl View for PlayerNum {
    type V = nat;

    /// The number of the player.
    closed spec fn view(&self) -> nat {
        self.0 as nat
    }
}

impl PlayerNum {
    /// The player numbered `n`.
    pub closed spec fn spec_new(n: nat) -> PlayerNum {
        PlayerNum(n as usize)
    }

    /// The number of the player numbered `n` is `n`.
    pub proof fn lemma_new(n: nat)
        requires
            n <= usize::MAX,
        ensures
            PlayerNum::spec_new(n)@ == n,
    {
    }

    /// A player number is determined by its view: numbers with the same
    /// view are equal, and every number is the one made from its view.
    pub proof fn lemma_view_determines(a: PlayerNum, b: PlayerNum)
        ensures
            a@ == b@ ==> a == b,
            PlayerNum::spec_new(a@) == a,
    {
    }

    /// The first player.
    pub fn first() -> (p: PlayerNum)
        ensures
            p@ == 0,
    {
        PlayerNum(0)
    }

    /// Gets the next player, wrapping around at the end.
    pub fn next(self, player_count: usize) -> (p: PlayerNum)
        requires
            player_count > 0,
            self@ < usize::MAX,
        ensures
            p@ == (self@ + 1) % (player_count as nat),
    {
        PlayerNum((self.0 + 1) % player_count)
    }

    /// Gets the player numbers of a game of `player_count` players.
    pub fn iter(player_count: usize) -> (r: Vec<PlayerNum>)
        ensures
            r@.len() == player_count,
            forall|k: int| 0 <= k < player_count ==> (#[trigger] r@[k])@ == k,
    {
        let mut r: Vec<PlayerNum> = Vec::new();
        let mut i: usize = 0;
        while i < player_count
            invariant
                i <= player_count,
                r@.len() == i,
                forall|k: int| 0 <= k < i ==> (#[trigger] r@[k])@ == k,
            decreases player_count - i,
        {
            r.push(PlayerNum(i));
            i = i + 1;
        }
        r
    }
}

impl From<PlayerNum> for usize {
    fn from(p: PlayerNum) -> (r: usize) {
        p.0
    }
}

impl vstd::std_specs::convert::FromSpecImpl<PlayerNum> for usize {
    open spec fn obeys_from_spec() -> bool {
        true
    }

    open spec fn from_spec(p: PlayerNum) -> usize {
        p@ as usize
    }
}

impl From<usize> for PlayerNum {
    fn from(n: usize) -> (r: PlayerNum) {
        PlayerNum(n)
    }
}

impl vstd::std_specs::convert::FromSpecImpl<usize> for PlayerNum {
    open spec fn obeys_from_spec() -> bool {
        true
    }

    open spec fn from_spec(n: usize) -> PlayerNum {
        PlayerNum::spec_new(n as nat)
    }
}

/// The reason that the game has ended.
#[derive(Clone, Copy, Debug, PartialEq, Eq, Structural)]
pub enum GameOverReason {
    /// A player has emptied their rack with no letters remaining in the bag.
    EmptyRack,
    /// A player has passed their turn twice in a row.
    TwoPasses,
}

/// `a - b`, or zero where `b` is larger.
pub open spec fn sat_sub(a: int, b: int) -> int {
    if a >= b {
        a - b
    } else {
        0
    }
}

/// The total value of the tiles left on the racks of the first `n`
/// players.
pub open spec fn rack_total(players: Seq<Player>, n: int) -> int
    decreases n,
{
    if n <= 0 {
        0
    } else {
        rack_total(players, n - 1) + score_sum(players[n - 1].spec_rack()@)
    }
}

/// The number of tiles of kind `i` on the racks of `players`.
pub open spec fn racks_count(players: Seq<Player>, i: nat) -> int
    decreases players.len(),
{
    if players.len() == 0 {
        0
    } else {
        racks_count(players.drop_last(), i) + players.last().spec_rack()@[i as int]
    }
}

/// Changing the rack of player `m` alone changes the racks' count by the
/// change in that rack.
proof fn lemma_racks_count_replace(ps: Seq<Player>, qs: Seq<Player>, m: int, i: nat)
    requires
        ps.len() == qs.len(),
        0 <= m < ps.len(),
        forall|j: int| 0 <= j < ps.len() && j != m ==> #[trigger] qs[j] == ps[j],
    ensures
        racks_count(qs, i) - qs[m].spec_rack()@[i as int] == racks_count(ps, i) - ps[m].spec_rack()@[i as int],
    decreases ps.len(),
{
    if m == ps.len() - 1 {
        assert(qs.drop_last() =~= ps.drop_last()) by {
            assert forall|j: int| 0 <= j < ps.len() - 1 implies qs.drop_last()[j] == ps.drop_last()[j] by {
                assert(qs[j] == ps[j]);
            }
        }
        assert(qs.last() == qs[m] && ps.last() == ps[m]);
    } else {
        assert forall|j: int| 0 <= j < ps.len() - 1 && j != m implies #[trigger] qs.drop_last()[j] == ps.drop_last()[j] by {
            assert(qs[j] == ps[j]);
        }
        lemma_racks_count_replace(ps.drop_last(), qs.drop_last(), m, i);
        assert(qs.last() == ps.last()) by {
            assert(qs[ps.len() - 1] == ps[ps.len() - 1]);
        }
        assert(qs.drop_last()[m] == qs[m] && ps.drop_last()[m] == ps[m]);
    }
}

/// A move of player `m` that trades `delta` between the rack and the
/// board, and tiles between the rack and the bag, keeps the number of
/// tiles of kind `i` in the game.
proof fn lemma_tiles_kept(
    bag0: Seq<usize>,
    bag1: Seq<usize>,
    ps0: Seq<Player>,
    ps1: Seq<Player>,
    m: int,
    b0: Seq<Option<Tile>>,
    b1: Seq<Option<Tile>>,
    delta: Seq<Tile>,
    i: nat,
)
    requires
        ps0.len() == ps1.len(),
        0 <= m < ps0.len(),
        forall|j: int| 0 <= j < ps0.len() && j != m ==> #[trigger] ps1[j] == ps0[j],
        bag1[i as int] + ps1[m].spec_rack()@[i as int] == bag0[i as int] + ps0[m].spec_rack()@[i as int] - count_in(
            delta,
            i,
        ),
        board_count(b1, i) == board_count(b0, i) + count_in(delta, i),
    ensures
        bag1[i as int] + racks_count(ps1, i) + board_count(b1, i) == bag0[i as int] + racks_count(ps0, i)
            + board_count(b0, i),
{
    lemma_racks_count_replace(ps0, ps1, m, i);
}

/// The final score of player `i` when player `last` ended the game: the
/// running score less the value of the tiles left on the rack, plus, for
/// the player who ended the game, the value of every rack.
pub open spec fn final_score(players: Seq<Player>, last: int, i: int) -> int {
    sat_sub(players[i].spec_score() as int, score_sum(players[i].spec_rack()@))
        + if i == last { rack_total(players, players.len() as int) } else { 0 }
}

/// The total of the final scores of the first `n` players when player
/// `last` ended the game.
pub open spec fn finals_total(players: Seq<Player>, last: int, n: int) -> int
    decreases n,
{
    if n <= 0 {
        0
    } else {
        finals_total(players, last, n - 1) + final_score(players, last, n - 1)
    }
}

/// The total, over the first `n` players, of the running score less the
/// value of the rack (down to zero).
pub open spec fn kept_total(players: Seq<Player>, n: int) -> int
    decreases n,
{
    if n <= 0 {
        0
    } else {
        kept_total(players, n - 1) + sat_sub(players[n - 1].spec_score() as int, score_sum(players[n - 1].spec_rack()@))
    }
}

/// The final scores when player `last` ended the game: each player keeps
/// the running score less the value of their rack (down to zero), and the
/// player who ended the game gains the value of every rack, their own
/// included. So the final scores add up to what the players kept plus the
/// value of all the racks.
pub proof fn law_final_scores(players: Seq<Player>, last: int)
    requires
        0 <= last < players.len(),
    ensures
        final_score(players, last, last) == sat_sub(
            players[last].spec_score() as int,
            score_sum(players[last].spec_rack()@),
        ) + rack_total(players, players.len() as int),
        forall|i: int| 0 <= i < players.len() && i != last ==> #[trigger] final_score(players, last, i) == sat_sub(
            players[i].spec_score() as int,
            score_sum(players[i].spec_rack()@),
        ),
        finals_total(players, last, players.len() as int) == kept_total(players, players.len() as int) + rack_total(
            players,
            players.len() as int,
        ),
{
    lemma_finals_total(players, last, players.len() as int);
}

/// The total of the final scores of the first `n` players, the one who
/// ended the game among them or not.
proof fn lemma_finals_total(players: Seq<Player>, last: int, n: int)
    requires
        0 <= last < players.len(),
        0 <= n <= players.len(),
    ensures
        finals_total(players, last, n) == kept_total(players, n) + if last < n {
            rack_total(players, players.len() as int)
        } else {
            0
        },
    decreases n,
{
    if n > 0 {
        lemma_finals_total(players, last, n - 1);
    }
}

/// The largest entry of `s`, or zero when it is empty.
pub open spec fn seq_max(s: Seq<usize>) -> int
    decreases s.len(),
{
    if s.len() == 0 {
        0
    } else {
        let m = seq_max(s.drop_last());
        if s.last() > m {
            s.last() as int
        } else {
            m
        }
    }
}

/// The (player, score) pairs of `s` whose score equals `m` (when `top`)
/// or is below `m` (otherwise), in order.
pub open spec fn keep_scores(s: Seq<(PlayerNum, usize)>, m: int, top: bool) -> Seq<(PlayerNum, usize)>
    decreases s.len(),
{
    if s.len() == 0 {
        Seq::empty()
    } else if (top && s.last().1 == m) || (!top && s.last().1 < m) {
        keep_scores(s.drop_last(), m, top).push(s.last())
    } else {
        keep_scores(s.drop_last(), m, top)
    }
}

/// The highest of the scores `s` is no lower than any of them.
proof fn lemma_seq_max(s: Seq<usize>, k: int)
    requires
        0 <= k < s.len(),
    ensures
        s[k] <= seq_max(s),
    decreases s.len(),
{
    if k < s.len() - 1 {
        lemma_seq_max(s.drop_last(), k);
    }
}

/// Some score of a nonempty sequence is its highest.
proof fn lemma_seq_max_attained(s: Seq<usize>)
    requires
        s.len() > 0,
    ensures
        exists|k: int| 0 <= k < s.len() && s[k] == seq_max(s),
    decreases s.len(),
{
    let r = s.drop_last();
    if s.len() == 1 {
        assert(seq_max(r) == 0);
        assert(s[0] == seq_max(s));
    } else if s.last() > seq_max(r) {
        assert(s[s.len() - 1] == seq_max(s));
    } else {
        lemma_seq_max_attained(r);
        let k = choose|k: int| 0 <= k < r.len() && r[k] == seq_max(r);
        assert(s[k] == r[k]);
        assert(s[k] == seq_max(s));
    }
}

/// A pair scoring `m` is kept among those scoring `m`.
proof fn lemma_keep_top(s: Seq<(PlayerNum, usize)>, m: int, k: int)
    requires
        0 <= k < s.len(),
        s[k].1 == m,
    ensures
        keep_scores(s, m, true).len() > 0,
    decreases s.len(),
{
    if k < s.len() - 1 {
        lemma_keep_top(s.drop_last(), m, k);
    }
}

/// The pairs kept for `top` score `m`; the others score below it.
proof fn lemma_keep_scores_values(s: Seq<(PlayerNum, usize)>, m: int, top: bool)
    ensures
        forall|k: int| 0 <= k < keep_scores(s, m, top).len() ==> if top {
            (#[trigger] keep_scores(s, m, top)[k]).1 == m
        } else {
            keep_scores(s, m, top)[k].1 < m
        },
    decreases s.len(),
{
    if s.len() > 0 {
        lemma_keep_scores_values(s.drop_last(), m, top);
        let r = keep_scores(s.drop_last(), m, top);
        assert forall|k: int| 0 <= k < r.len() implies #[trigger] r.push(s.last())[k] == r[k] by {}
    }
}

/// Splitting pairs whose scores are at most `m` into those scoring `m` and
/// those scoring less loses none and repeats none.
proof fn lemma_keep_split(s: Seq<(PlayerNum, usize)>, m: int)
    requires
        forall|k: int| 0 <= k < s.len() ==> (#[trigger] s[k]).1 <= m,
    ensures
        keep_scores(s, m, true).to_multiset().add(keep_scores(s, m, false).to_multiset()) =~= s.to_multiset(),
    decreases s.len(),
{
    broadcast use vstd::seq_lib::group_to_multiset_ensures;
    broadcast use vstd::multiset::group_multiset_axioms;

    if s.len() == 0 {
        assert(keep_scores(s, m, true).to_multiset() =~= vstd::multiset::Multiset::empty());
        assert(keep_scores(s, m, false).to_multiset() =~= vstd::multiset::Multiset::empty());
        assert(s.to_multiset() =~= vstd::multiset::Multiset::empty());
    } else {
        let r = s.drop_last();
        let x = s.last();
        assert forall|k: int| 0 <= k < r.len() implies (#[trigger] r[k]).1 <= m by {
            assert(r[k] == s[k]);
        }
        lemma_keep_split(r, m);
        assert(s =~= r.push(x));
        assert(x.1 <= m);
    }
}

/// Stores the final scores and the outcome of the game.
#[derive(Debug)]
pub struct GameOver {
    max_score: usize,
    scores: Vec<usize>,
    reason: GameOverReason,
}

impl Clone for GameOver {
    fn clone(&self) -> (r: GameOver)
        ensures
            r.spec_scores() == self.spec_scores(),
            r.spec_max_score() == self.spec_max_score(),
            r.spec_reason() == self.spec_reason(),
    {
        proof {
            use_type_invariant(self);
        }
        let mut scores: Vec<usize> = Vec::new();
        let mut i: usize = 0;
        while i < self.scores.len()
            invariant
                i <= self.scores@.len(),
                scores@ == self.scores@.subrange(0, i as int),
            decreases self.scores@.len() - i,
        {
            scores.push(self.scores[i]);
            i = i + 1;
            proof {
                assert(scores@ =~= self.scores@.subrange(0, i as int));
            }
        }
        proof {
            assert(scores@ =~= self.scores@);
        }
        GameOver { max_score: self.max_score, scores, reason: self.reason }
    }
}

impl GameOver {
    /// The recorded highest score is the highest of the final scores.
    #[verifier::type_invariant]
    spec fn inv(self) -> bool {
        self.max_score == seq_max(self.scores@)
    }

    /// The final score of each player, in player order.
    pub closed spec fn spec_scores(&self) -> Seq<usize> {
        self.scores@
    }

    /// The highest final score.
    pub closed spec fn spec_max_score(&self) -> nat {
        self.max_score as nat
    }

    /// Why the game ended.
    pub closed spec fn spec_reason(&self) -> GameOverReason {
        self.reason
    }

    /// The (player, final score) pairs, in player order.
    pub open spec fn spec_final_scores(&self) -> Seq<(PlayerNum, usize)> {
        Seq::new(self.spec_scores().len(), |k: int| (PlayerNum::spec_new(k as nat), self.spec_scores()[k]))
    }

    /// Computes the final scores from the game state: each player loses
    /// the value of the tiles left on their rack (down to zero), and the
    /// player who ended the game gains the value of every rack.
    pub fn new(reason: GameOverReason, players: &[Player], last_player: PlayerNum) -> (g: GameOver)
        requires
            last_player@ < players@.len(),
            70 * players@.len() <= usize::MAX,
            final_score(players@, last_player@ as int, last_player@ as int) <= usize::MAX,
        ensures
            g.spec_scores().len() == players@.len(),
            forall|i: int| 0 <= i < players@.len() ==> #[trigger] g.spec_scores()[i]
                == final_score(players@, last_player@ as int, i),
            g.spec_max_score() == seq_max(g.spec_scores()),
            g.spec_reason() == reason,
            g.spec_scores()[last_player@ as int] == sat_sub(
                players@[last_player@ as int].spec_score() as int,
                score_sum(players@[last_player@ as int].spec_rack()@),
            ) + rack_total(players@, players@.len() as int),
    {
        let n = players.len();
        let mut scores: Vec<usize> = Vec::new();
        let mut overall: usize = 0;
        let mut i: usize = 0;
        while i < n
            invariant
                i <= n,
                n == players@.len(),
                70 * n <= usize::MAX,
                scores@.len() == i,
                overall == rack_total(players@, i as int),
                overall <= 70 * i,
                forall|k: int| 0 <= k < i ==> #[trigger] scores@[k] == sat_sub(
                    players@[k].spec_score() as int,
                    score_sum(players@[k].spec_rack()@),
                ),
            decreases n - i,
        {
            let rack_sum = players[i].rack.tile_sum();
            let s = players[i].score;
            scores.push(if s >= rack_sum { s - rack_sum } else { 0 });
            overall = overall + rack_sum;
            i = i + 1;
        }
        let last = last_player.0;
        let v = scores[last] + overall;
        scores.set(last, v);
        let mut max_score: usize = 0;
        let mut j: usize = 0;
        while j < n
            invariant
                j <= n,
                scores@.len() == n,
                max_score == seq_max(scores@.subrange(0, j as int)),
            decreases n - j,
        {
            proof {
                assert(scores@.subrange(0, j as int + 1).drop_last() =~= scores@.subrange(0, j as int));
            }
            if scores[j] > max_score {
                max_score = scores[j];
            }
            j = j + 1;
        }
        proof {
            assert(scores@.subrange(0, n as int) =~= scores@);
        }
        GameOver { max_score, scores, reason }
    }

    /// Gets the score for a particular player.
    pub fn score(&self, player_num: PlayerNum) -> (r: usize)
        requires
            player_num@ < self.spec_scores().len(),
        ensures
            r == self.spec_scores()[player_num@ as int],
    {
        self.scores[player_num.0]
    }

    /// Gets the maximum score achieved.
    pub fn max_score(&self) -> (r: usize)
        ensures
            r == self.spec_max_score(),
    {
        self.max_score
    }

    /// Gets the reason that the game ended.
    pub fn reason(&self) -> (r: GameOverReason)
        ensures
            r == self.spec_reason(),
    {
        self.reason
    }

    /// Gets the (player number, score) pairs, in player order.
    pub fn final_scores(&self) -> (r: Vec<(PlayerNum, usize)>)
        ensures
            r@ == self.spec_final_scores(),
    {
        let mut r: Vec<(PlayerNum, usize)> = Vec::new();
        let mut i: usize = 0;
        while i < self.scores.len()
            invariant
                i <= self.scores@.len(),
                r@ == self.spec_final_scores().subrange(0, i as int),
            decreases self.scores@.len() - i,
        {
            r.push((PlayerNum(i), self.scores[i]));
            i = i + 1;
            proof {
                assert(r@ =~= self.spec_final_scores().subrange(0, i as int));
            }
        }
        proof {
            assert(self.spec_final_scores().subrange(0, i as int) =~= self.spec_final_scores());
        }
        r
    }

    /// The pairs of `all` whose score is (or is not) the highest.
    fn select(&self, all: &Vec<(PlayerNum, usize)>, top: bool) -> (r: Vec<(PlayerNum, usize)>)
        ensures
            r@ == keep_scores(all@, self.spec_max_score() as int, top),
    {
        let mut r: Vec<(PlayerNum, usize)> = Vec::new();
        let mut i: usize = 0;
        while i < all.len()
            invariant
                i <= all@.len(),
                r@ == keep_scores(all@.subrange(0, i as int), self.spec_max_score() as int, top),
            decreases all@.len() - i,
        {
            let (p, s) = all[i];
            proof {
                assert(all@.subrange(0, i as int + 1).drop_last() =~= all@.subrange(0, i as int));
            }
            if (top && s == self.max_score) || (!top && s < self.max_score) {
                r.push((p, s));
            }
            i = i + 1;
        }
        proof {
            assert(all@.subrange(0, i as int) =~= all@);
        }
        r
    }

    /// Gets the winning players, with their scores; there is at least one
    /// when there are players.
    pub fn winners(&self) -> (r: Vec<(PlayerNum, usize)>)
        ensures
            r@ == keep_scores(self.spec_final_scores(), self.spec_max_score() as int, true),
            self.spec_scores().len() > 0 ==> r@.len() > 0,
    {
        proof {
            use_type_invariant(self);
            if self.scores@.len() > 0 {
                lemma_seq_max_attained(self.scores@);
                let k = choose|k: int| 0 <= k < self.scores@.len() && self.scores@[k] == seq_max(self.scores@);
                lemma_keep_top(self.spec_final_scores(), self.spec_max_score() as int, k);
            }
        }
        let all = self.final_scores();
        self.select(&all, true)
    }

    /// Gets the losing players, with their scores.
    pub fn losers(&self) -> (r: Vec<(PlayerNum, usize)>)
        ensures
            r@ == keep_scores(self.spec_final_scores(), self.spec_max_score() as int, false),
    {
        let all = self.final_scores();
        self.select(&all, false)
    }

    /// Every winner has the highest final score, which no final score
    /// exceeds; every loser has less.
    pub proof fn law_winners_top_losers_below(g: &GameOver)
        requires
            g.spec_max_score() == seq_max(g.spec_scores()),
        ensures
            forall|k: int| 0 <= k < g.spec_scores().len() ==> #[trigger] g.spec_scores()[k] <= g.spec_max_score(),
            g.spec_scores().len() > 0 ==> exists|k: int|
                0 <= k < g.spec_scores().len() && #[trigger] g.spec_scores()[k] == g.spec_max_score(),
            forall|k: int|
                0 <= k < keep_scores(g.spec_final_scores(), g.spec_max_score() as int, true).len() ==> (
                #[trigger] keep_scores(g.spec_final_scores(), g.spec_max_score() as int, true)[k]).1
                    == g.spec_max_score(),
            forall|k: int|
                0 <= k < keep_scores(g.spec_final_scores(), g.spec_max_score() as int, false).len() ==> (
                #[trigger] keep_scores(g.spec_final_scores(), g.spec_max_score() as int, false)[k]).1
                    < g.spec_max_score(),
    {
        assert forall|k: int| 0 <= k < g.spec_scores().len() implies #[trigger] g.spec_scores()[k] <= g.spec_max_score() by {
            lemma_seq_max(g.spec_scores(), k);
        }
        if g.spec_scores().len() > 0 {
            lemma_seq_max_attained(g.spec_scores());
        }
        lemma_keep_scores_values(g.spec_final_scores(), g.spec_max_score() as int, true);
        lemma_keep_scores_values(g.spec_final_scores(), g.spec_max_score() as int, false);
    }

    /// The winners and the losers together are the final scores, each
    /// (player, score) pair once: a final score is either the highest or
    /// below it.
    pub proof fn law_winners_and_losers(g: &GameOver)
        requires
            g.spec_max_score() == seq_max(g.spec_scores()),
        ensures
            keep_scores(g.spec_final_scores(), g.spec_max_score() as int, true).to_multiset().add(
                keep_scores(g.spec_final_scores(), g.spec_max_score() as int, false).to_multiset(),
            ) == g.spec_final_scores().to_multiset(),
    {
        let fs = g.spec_final_scores();
        assert forall|k: int| 0 <= k < fs.len() implies (#[trigger] fs[k]).1 <= g.spec_max_score() as int by {
            lemma_seq_max(g.spec_scores(), k);
        }
        lemma_keep_split(fs, g.spec_max_score() as int);
    }
}

/// The current state of the game.
#[derive(Clone, Debug)]
pub enum GameStatus {
    /// One or more players have won.
    Over(GameOver),
    /// The game is ongoing, and it is this player's turn.
    ToPlay(PlayerNum),
}

impl GameStatus {
    /// Checks whether the game is over.
    pub fn is_over(&self) -> (r: bool)
        ensures
            r == (self is Over),
    {
        match self {
            GameStatus::Over(_) => true,
            GameStatus::ToPlay(_) => false,
        }
    }
}

/// The tiles of a placement, in order.
pub open spec fn tiles_of(tp: Seq<(Pos, Tile)>) -> Seq<Tile> {
    tp.map_values(|pt: (Pos, Tile)| pt.1)
}

/// A rack with counts `rack` holds every tile of `tiles`.
pub open spec fn rack_holds(rack: Seq<usize>, tiles: Seq<Tile>) -> bool {
    forall|i: nat| i < 27 ==> #[trigger] count_in(tiles, i) <= rack[i as int]
}

/// What redrawing `tiles` from a rack with counts `rack` gives, with
/// `bag_len` tiles in the bag.
pub open spec fn redraw_result(rack: Seq<usize>, bag_len: int, tiles: Seq<Tile>) -> GameResult<()> {
    if !(1 <= tiles.len() <= 7) {
        Err(GameError::RedrawCount)
    } else if bag_len < tiles.len() {
        Err(GameError::NotEnoughLetters)
    } else if !rack_holds(rack, tiles) {
        Err(GameError::NotInRack)
    } else {
        Ok(())
    }
}

/// `go` holds the final scores of `players` when player `last` ended the
/// game for `reason`.
pub open spec fn game_over_is(go: GameOver, players: Seq<Player>, last: int, reason: GameOverReason) -> bool {
    &&& go.spec_scores().len() == players.len()
    &&& forall|i: int| 0 <= i < players.len() ==> #[trigger] go.spec_scores()[i] == final_score(players, last, i)
    &&& go.spec_max_score() == seq_max(go.spec_scores())
    &&& go.spec_reason() == reason
}

/// The status after player `prev` moved: the game ends when that player
/// has passed twice in a row, or has emptied their rack; otherwise it is
/// player `next`'s turn.
pub open spec fn status_after(players: Seq<Player>, prev: int, next: PlayerNum, st: GameStatus) -> bool {
    if players[prev].spec_pass_count() >= 2 {
        st matches GameStatus::Over(go) && game_over_is(go, players, prev, GameOverReason::TwoPasses)
    } else if players[prev].spec_rack().spec_len() == 0 {
        st matches GameStatus::Over(go) && game_over_is(go, players, prev, GameOverReason::EmptyRack)
    } else {
        st == GameStatus::ToPlay(next)
    }
}

/// Top level struct allowing for management of the entire game. Manages
/// players, all state, and determines when the game is over, calculating
/// scores and determining the winner.
#[derive(Debug)]
pub struct Game {
    board: Board,
    letter_bag: LetterBag,
    players: Vec<Player>,
    to_play: PlayerNum,
    status: GameStatus,
}

impl Game {
    /// The tiles on the board.
    pub closed spec fn spec_board(&self) -> Seq<Option<Tile>> {
        self.board@
    }

    /// The tile counts of the letter bag.
    pub closed spec fn spec_bag(&self) -> Seq<usize> {
        self.letter_bag@
    }

    /// The number of tiles in the letter bag.
    pub closed spec fn spec_bag_len(&self) -> int {
        self.letter_bag.spec_len()
    }

    /// The players, in turn order.
    pub closed spec fn spec_players(&self) -> Seq<Player> {
        self.players@
    }

    /// The player whose turn it is (or was, when the game ended).
    pub closed spec fn spec_to_play(&self) -> PlayerNum {
        self.to_play
    }

    /// The status of the game.
    pub closed spec fn spec_status(&self) -> GameStatus {
        self.status
    }

    /// The number of tiles of kind `i` in the game: in the bag, on the
    /// racks and on the board.
    pub open spec fn tiles_of_kind(&self, i: nat) -> int {
        self.spec_bag()[i as int] + racks_count(self.spec_players(), i) + board_count(self.spec_board(), i)
    }

    /// The player whose turn it is.
    pub open spec fn spec_mover(&self) -> Player {
        self.spec_players()[self.spec_to_play()@ as int]
    }

    /// The game is consistent: the player to play exists; an ongoing game
    /// names that player and nobody has passed twice in a row; the bag
    /// and racks hold no more tiles than the game started with; and no
    /// score exceeds what the tiles on the board could have earned.
    pub closed spec fn wf(&self) -> bool {
        &&& self.wf_core()
        &&& self.status matches GameStatus::ToPlay(p) ==> p == self.to_play && forall|i: int|
            0 <= i < self.players@.len() ==> (#[trigger] self.players@[i]).pass_count <= 1
    }

    /// What the game keeps, whatever its status.
    closed spec fn wf_core(&self) -> bool {
        &&& self.players@.len() <= 14
        &&& self.players@.len() >= 1 ==> self.to_play@ < self.players@.len()
        &&& self.letter_bag.spec_len() <= 100
        &&& self.board@.len() == 225
        &&& forall|i: int| 0 <= i < self.players@.len() ==> (#[trigger] self.players@[i]).rack.spec_len() <= 7
        &&& forall|i: int| 0 <= i < self.players@.len() ==> (#[trigger] self.players@[i]).score
            <= 13778150 * occupied(self.board@).len()
    }

    /// What making `play` gives: `Over` once the game has ended, else the
    /// error of a refused redraw or placement, else success.
    pub open spec fn play_result<F: Fsm>(&self, play: Play, f: &F) -> GameResult<()> {
        if self.spec_status() is Over {
            Err(GameError::Over)
        } else {
            match play {
                Play::Pass => Ok(()),
                Play::Redraw(ts) => redraw_result(self.spec_mover().spec_rack()@, self.spec_bag_len(), ts@),
                Play::Place(tp) => if !rack_holds(self.spec_mover().spec_rack()@, tiles_of(tp@)) {
                    Err(GameError::NotInRack)
                } else {
                    match spec_placement(f, self.spec_board(), tp@) {
                        Err(e) => Err(e),
                        Ok(_) => Ok(()),
                    }
                },
            }
        }
    }

    /// Constructs a new [`Game`] for `player_count` players, each drawing
    /// a full rack from the bag, which holds enough for 14.
    pub fn new(player_count: usize) -> (g: Game)
        requires
            player_count <= 14,
        ensures
            g.wf(),
            g.spec_players().len() == player_count,
            forall|i: int| 0 <= i < player_count ==> (#[trigger] g.spec_players()[i]).spec_score() == 0
                && g.spec_players()[i].spec_pass_count() == 0 && g.spec_players()[i].spec_rack().spec_len()
                == RACK_SIZE,
            g.spec_to_play()@ == 0,
            g.spec_status() == GameStatus::ToPlay(g.spec_to_play()),
            forall|i: int| 0 <= i < 225 ==> #[trigger] g.spec_board()[i] is None,
            g.spec_bag_len() == 100 - 7 * player_count,
            forall|i: nat| i < 27 ==> #[trigger] g.tiles_of_kind(i) == initial_count_of(i),
    {
        let mut letter_bag = LetterBag::new();
        let mut players: Vec<Player> = Vec::new();
        let mut i: usize = 0;
        while i < player_count
            invariant
                i <= player_count <= 14,
                letter_bag.spec_len() == 100 - 7 * i,
                players@.len() == i,
                forall|k: int| 0 <= k < i ==> (#[trigger] players@[k]).score == 0 && players@[k].pass_count == 0
                    && players@[k].rack.spec_len() == RACK_SIZE,
                forall|t: nat| t < 27 ==> letter_bag@[t as int] + #[trigger] racks_count(players@, t) == initial_count_of(t),
            decreases player_count - i,
        {
            let ghost ps = players@;
            let rack = Rack::new(&mut letter_bag);
            players.push(Player { rack, score: 0, pass_count: 0 });
            i = i + 1;
            proof {
                assert(players@.drop_last() =~= ps);
                assert forall|t: nat| t < 27 implies letter_bag@[t as int] + #[trigger] racks_count(players@, t)
                    == initial_count_of(t) by {
                    assert(racks_count(players@, t) == racks_count(ps, t) + rack@[t as int]);
                }
            }
        }
        let board = Board::new();
        let first = PlayerNum::first();
        Game { board, letter_bag, players, to_play: first, status: GameStatus::ToPlay(first) }
    }

    /// Gets the next player number, or nothing once the game is over.
    pub fn to_play(&self) -> (r: Option<PlayerNum>)
        ensures
            r == (match self.spec_status() {
                GameStatus::Over(_) => None,
                GameStatus::ToPlay(p) => Some(p),
            }),
    {
        match &self.status {
            GameStatus::Over(_) => None,
            GameStatus::ToPlay(p) => Some(*p),
        }
    }

    /// Gets the number of tiles left in the letter bag.
    pub fn letter_bag_len(&self) -> (r: usize)
        ensures
            r == self.spec_bag_len(),
    {
        self.letter_bag.len()
    }

    /// Gets the game state for a player.
    pub fn player(&self, player_num: PlayerNum) -> (r: &Player)
        requires
            player_num@ < self.spec_players().len(),
        ensures
            *r == self.spec_players()[player_num@ as int],
    {
        &self.players[player_num.0]
    }

    /// The current status of the game.
    pub fn status(&self) -> (r: &GameStatus)
        ensures
            *r == self.spec_status(),
    {
        &self.status
    }

    /// Borrows the board.
    pub fn board(&self) -> (r: &Board)
        ensures
            r@ == self.spec_board(),
    {
        &self.board
    }

    /// Gets the number of players.
    pub fn player_count(&self) -> (r: usize)
        ensures
            r == self.spec_players().len(),
    {
        self.players.len()
    }

    /// Gets the player numbers of the game.
    pub fn player_nums(&self) -> (r: Vec<PlayerNum>)
        ensures
            r@.len() == self.spec_players().len(),
            forall|k: int| 0 <= k < r@.len() ==> (#[trigger] r@[k])@ == k,
    {
        PlayerNum::iter(self.player_count())
    }
}

impl Game {
    /// Determines the status after player `previous` moved.
    fn next_status(&self, previous: PlayerNum) -> (st: GameStatus)
        requires
            self.wf_core(),
            previous@ < self.spec_players().len(),
            self.spec_players().len() >= 1,
        ensures
            status_after(self.spec_players(), previous@ as int, self.spec_to_play(), st),
            st matches GameStatus::ToPlay(p) ==> p == self.spec_to_play() && self.spec_players()[previous@ as int].spec_pass_count() <= 1,
    {
        proof {
            let ps = self.players@;
            let last = previous@ as int;
            Board::lemma_len(self.board);
            lemma_occupied_bound(self.board@);
            lemma_rack_total(ps, ps.len() as int);
            crate::util::tile_counts::lemma_score_sum_bound(ps[last].rack@);
            assert(ps[last].score <= 13778150 * 225) by (nonlinear_arith)
                requires
                    ps[last].score <= 13778150 * occupied(self.board@).len(),
                    occupied(self.board@).len() <= 225,
            ;
        }
        let previous_player = &self.players[previous.0];
        if previous_player.pass_count >= 2 {
            GameStatus::Over(GameOver::new(GameOverReason::TwoPasses, self.players.as_slice(), previous))
        } else if previous_player.rack.is_empty() {
            GameStatus::Over(GameOver::new(GameOverReason::EmptyRack, self.players.as_slice(), previous))
        } else {
            GameStatus::ToPlay(self.to_play)
        }
    }

    /// Attempts to make a [`Play`]. On success the turn passes to the next
    /// player and the status is brought up to date; on failure nothing
    /// changes.
    pub fn make_play<F: Fsm>(&mut self, play: &Play, fsm: &F) -> (r: GameResult<()>)
        requires
            old(self).wf(),
            old(self).spec_players().len() >= 1,
        ensures
            final(self).wf(),
            r == old(self).play_result(*play, fsm),
            forall|i: nat| i < 27 ==> #[trigger] final(self).tiles_of_kind(i) == old(self).tiles_of_kind(i),
            r is Err ==> final(self).spec_board() == old(self).spec_board() && final(self).spec_bag()
                == old(self).spec_bag() && final(self).spec_players() == old(self).spec_players()
                && final(self).spec_to_play() == old(self).spec_to_play() && final(self).spec_status()
                == old(self).spec_status(),
            r is Ok ==> {
                let n = old(self).spec_players().len();
                let m = old(self).spec_to_play()@ as int;
                let before = old(self).spec_mover();
                let after = final(self).spec_players()[m];
                &&& final(self).spec_players().len() == n
                &&& final(self).spec_to_play()@ == (m + 1) % (n as int)
                &&& forall|i: int| 0 <= i < n && i != m ==> #[trigger] final(self).spec_players()[i]
                    == old(self).spec_players()[i]
                &&& status_after(final(self).spec_players(), m, final(self).spec_to_play(), final(self).spec_status())
                &&& match *play {
                    Play::Pass => {
                        &&& after.spec_pass_count() == before.spec_pass_count() + 1
                        &&& after.spec_score() == before.spec_score()
                        &&& after.spec_rack() == before.spec_rack()
                        &&& final(self).spec_bag() == old(self).spec_bag()
                        &&& final(self).spec_board() == old(self).spec_board()
                    },
                    Play::Redraw(ts) => {
                        &&& after.spec_pass_count() == 0
                        &&& after.spec_score() == before.spec_score()
                        &&& after.spec_rack().spec_len() == before.spec_rack().spec_len()
                        &&& final(self).spec_bag_len() == old(self).spec_bag_len()
                        &&& forall|i: int| 0 <= i < 27 ==> #[trigger] final(self).spec_bag()[i]
                            + after.spec_rack()@[i] == old(self).spec_bag()[i] + before.spec_rack()@[i]
                        &&& forall|i: int|
                            0 <= i < 27 ==> before.spec_rack()@[i] - count_in(ts@, i as nat) <= #[trigger] after.spec_rack()@[i]
                        &&& forall|i: int|
                            0 <= i < 27 ==> #[trigger] after.spec_rack()@[i] - (before.spec_rack()@[i] - count_in(ts@, i as nat))
                                <= old(self).spec_bag()[i]
                        &&& final(self).spec_board() == old(self).spec_board()
                    },
                    Play::Place(tp) => {
                        &&& spec_placement(fsm, old(self).spec_board(), tp@) == Ok::<int, GameError>(
                            after.spec_score() - before.spec_score(),
                        )
                        &&& after.spec_pass_count() == 0
                        &&& final(self).spec_board() == place_all(old(self).spec_board(), tp@)
                        &&& forall|i: int| 0 <= i < 27 ==> #[trigger] final(self).spec_bag()[i]
                            + after.spec_rack()@[i] == old(self).spec_bag()[i] + before.spec_rack()@[i]
                            - count_in(tiles_of(tp@), i as nat)
                        &&& after.spec_rack().spec_len() == vstd::math::min(
                            RACK_SIZE as int,
                            before.spec_rack().spec_len() - tp@.len() + old(self).spec_bag_len(),
                        )
                        &&& forall|i: int|
                            0 <= i < 27 ==> before.spec_rack()@[i] - count_in(tiles_of(tp@), i as nat)
                                <= #[trigger] after.spec_rack()@[i]
                    },
                }
            },
    {
        if self.status.is_over() {
            return Err(GameError::Over);
        }
        let idx = self.to_play.0;
        let ghost old_players = self.players@;
        let ghost occ0 = occupied(self.board@);
        match play {
            Play::Pass => {
                let mut p = self.players.remove(idx);
                p.pass_count = p.pass_count + 1;
                self.players.insert(idx, p);
            },
            Play::Redraw(tiles) => {
                let mut p = self.players.remove(idx);
                match p.rack.exchange_tiles(tiles.as_slice(), &mut self.letter_bag) {
                    Ok(()) => {
                        p.pass_count = 0;
                        self.players.insert(idx, p);
                    },
                    Err(e) => {
                        self.players.insert(idx, p);
                        proof {
                            assert(self.players@ =~= old_players);
                        }
                        return Err(e);
                    },
                }
                let _ = self.players[idx].rack.len();
            },
            Play::Place(tile_positions) => {
                let mut tiles: Vec<Tile> = Vec::new();
                let mut k: usize = 0;
                while k < tile_positions.len()
                    invariant
                        k <= tile_positions@.len(),
                        tiles@ == tiles_of(tile_positions@.subrange(0, k as int)),
                    decreases tile_positions@.len() - k,
                {
                    tiles.push(tile_positions[k].1);
                    k = k + 1;
                    proof {
                        assert(tiles@ =~= tiles_of(tile_positions@.subrange(0, k as int)));
                    }
                }
                proof {
                    assert(tile_positions@.subrange(0, k as int) =~= tile_positions@);
                }
                if !self.players[idx].rack.contains(tiles.as_slice()) {
                    return Err(GameError::NotInRack);
                }
                let score = match self.board.make_placement(tile_positions.as_slice(), fsm) {
                    Ok(s) => s,
                    Err(e) => {
                        return Err(e);
                    },
                };
                let mut p = self.players.remove(idx);
                proof {
                    Board::lemma_len(self.board);
                    lemma_occupied_bound(self.board@);
                    assert(p.score + score <= 13778150 * occupied(self.board@).len()) by (nonlinear_arith)
                        requires
                            p.score <= 13778150 * occ0.len(),
                            score <= 13778150,
                            occ0.len() < occupied(self.board@).len(),
                    ;
                    assert forall|i: int| 0 <= i < old_players.len() implies (#[trigger] old_players[i]).score
                        <= 13778150 * occupied(self.board@).len() by {
                        assert(old_players[i].score <= 13778150 * occ0.len());
                        assert(13778150 * occ0.len() <= 13778150 * occupied(self.board@).len()) by (nonlinear_arith)
                            requires
                                occ0.len() < occupied(self.board@).len(),
                        ;
                    }
                }
                p.pass_count = 0;
                p.score = p.score + score;
                p.rack.remove(tiles.as_slice());
                p.rack.refill(&mut self.letter_bag);
                let _ = p.rack.len();
                self.players.insert(idx, p);
            },
        }
        proof {
            assert forall|i: int| 0 <= i < old_players.len() && i != idx implies #[trigger] self.players@[i]
                == old_players[i] by {}
            assert forall|i: int| 0 <= i < self.players@.len() implies (#[trigger] self.players@[i]).rack.spec_len() <= 7 by {
                if i != idx {
                    assert(self.players@[i] == old_players[i]);
                }
            }
        }
        let previous = self.to_play;
        self.to_play = self.to_play.next(self.players.len());
        self.status = self.next_status(previous);
        proof {
            let m = idx as int;
            assert forall|t: nat| t < 27 implies #[trigger] self.tiles_of_kind(t) == old(self).tiles_of_kind(t) by {
                let e = Seq::<Tile>::empty();
                assert(count_in(e, t) == 0);
                match *play {
                    Play::Pass => {
                        lemma_tiles_kept(old(self).letter_bag@, self.letter_bag@, old_players, self.players@, m,
                            old(self).board@, self.board@, e, t);
                    },
                    Play::Redraw(_) => {
                        lemma_tiles_kept(old(self).letter_bag@, self.letter_bag@, old_players, self.players@, m,
                            old(self).board@, self.board@, e, t);
                    },
                    Play::Place(tp) => {
                        lemma_tiles_kept(old(self).letter_bag@, self.letter_bag@, old_players, self.players@, m,
                            old(self).board@, self.board@, tiles_of(tp@), t);
                    },
                }
            }
        }
        Ok(())
    }
}

/// A board has at most 225 occupied squares.
proof fn lemma_occupied_bound(g: Seq<Option<Tile>>)
    ensures
        occupied(g).len() <= 225,
        occupied(g).finite(),
{
    vstd::set_lib::lemma_int_range(0, 225);
    assert(occupied(g).subset_of(vstd::set_lib::set_int_range(0, 225)));
    vstd::set_lib::lemma_len_subset(occupied(g), vstd::set_lib::set_int_range(0, 225));
}

/// With racks of at most seven tiles, the racks of the first `n` players
/// are worth at most 70 each.
proof fn lemma_rack_total(players: Seq<Player>, n: int)
    requires
        0 <= n <= players.len(),
        forall|i: int| 0 <= i < players.len() ==> (#[trigger] players[i]).spec_rack().spec_len() <= 7,
    ensures
        0 <= rack_total(players, n) <= 70 * n,
    decreases n,
{
    if n > 0 {
        lemma_rack_total(players, n - 1);
        crate::util::tile_counts::lemma_score_sum_bound(players[n - 1].spec_rack()@);
    }
}

} // verus!
