//! Module modelling the scrabble tile.
use crate::error::{GameError, GameResult};
use vstd::prelude::*;
use vstd::std_specs::convert::FromSpecImpl;

verus! {

/// The number of distinct tiles: 26 letters and the blank.
pub const TILE_KINDS: usize = 27;

/// A letter `A..=Z`, stored as a number in `0..=25`.
#[derive(Debug, Default, Clone, Copy, PartialEq, Eq, Structural, Hash, PartialOrd, Ord)]
pub struct Letter(pub(crate) u8);

impl Letter {
    #[verifier::type_invariant]
    spec fn inv(self) -> bool {
        self.0 < 26
    }

    /// The number of the letter, `A` being 0.
    pub closed spec fn index(self) -> nat {
        self.0 as nat
    }

    /// The letter with number `i`.
    pub closed spec fn with_index(i: nat) -> Letter {
        Letter(i as u8)
    }

    /// A letter is determined by its number.
    pub broadcast proof fn lemma_index_determines(l: Letter)
        ensures
            #[trigger] Letter::with_index(l.index()) == l,
            l.index() < 256,
    {
    }

    /// The number of the letter with number `i` is `i`.
    pub broadcast proof fn lemma_with_index(i: nat)
        requires
            i < 256,
        ensures
            #[trigger] Letter::with_index(i).index() == i,
    {
    }

    /// The letter that a character names, if it is a latin letter
    /// of either case.
    pub open spec fn spec_new(ch: char) -> Option<Letter> {
        if 'a' <= ch && ch <= 'z' {
            Some(Letter::with_index((ch as int - 97) as nat))
        } else if 'A' <= ch && ch <= 'Z' {
            Some(Letter::with_index((ch as int - 65) as nat))
        } else {
            None
        }
    }

    /// A letter is named by its upper case character: reading back the
    /// character that [`Letter::to_char`] gives yields the letter.
    pub proof fn law_char_round_trip(l: Letter, c: char)
        requires
            l.index() < 26,
            c as int == l.index() + 65,
        ensures
            Letter::spec_new(c) == Some(l),
    {
        assert('A' <= c && c <= 'Z');
        assert((c as int - 65) as nat == l.index());
    }

    /// Creates a new letter from a `char`, returns [`None`] if the
    /// `ch` provided is not in the latin alphabet.
    pub fn new(ch: char) -> (r: Option<Letter>)
        ensures
            r == Letter::spec_new(ch),
            r matches Some(l) ==> l.index() < 26,
    {
        if 'a' <= ch && ch <= 'z' {
            let v: u32 = ch as u32;
            Some(Letter((v - 97) as u8))
        } else if 'A' <= ch && ch <= 'Z' {
            let v: u32 = ch as u32;
            Some(Letter((v - 65) as u8))
        } else {
            None
        }
    }

    /// Creates a letter from its number if it is in `0..=25`.
    pub fn from_index(i: u8) -> (r: Option<Letter>)
        ensures
            r == (if i < 26 { Some(Letter::with_index(i as nat)) } else { None }),
    {
        if i < 26 {
            Some(Letter(i))
        } else {
            None
        }
    }

    /// Gets the number of the letter, `A` being 0.
    pub fn to_index(self) -> (r: usize)
        ensures
            r == self.index(),
            r < 26,
    {
        proof {
            use_type_invariant(&self);
        }
        self.0 as usize
    }

    /// Gets the upper case character for the letter.
    pub fn to_char(self) -> (c: char)
        ensures
            c as int == self.index() + 65,
    {
        proof {
            use_type_invariant(&self);
        }
        let v: u8 = self.0 + 65;
        v as char
    }

    /// Returns all 26 letters in order.
    pub fn iter() -> (r: Vec<Letter>)
        ensures
            r@.len() == 26,
            forall|i: int| 0 <= i < 26 ==> #[trigger] r@[i] == Letter::with_index(i as nat),
    {
        let mut v: Vec<Letter> = Vec::new();
        let mut i: u8 = 0;
        while i < 26
            invariant
                i <= 26,
                v@.len() == i,
                forall|j: int| 0 <= j < i ==> #[trigger] v@[j] == Letter::with_index(j as nat),
            decreases 26 - i,
        {
            v.push(Letter(i));
            i = i + 1;
        }
        v
    }
}

/// The letter numbered `v`, taken modulo 256 and then modulo 26.
pub open spec fn letter_from_usize(v: usize) -> Letter {
    Letter::with_index(((v % 256) % 26) as nat)
}

impl From<usize> for Letter {
    fn from(v: usize) -> (r: Self) {
        let b: u8 = (v % 256) as u8;
        Letter(b % 26)
    }
}

impl Letter {
    /// The letter with number `v % 256 % 26`.
    pub fn from_usize(v: usize) -> (r: Letter)
        ensures
            r == letter_from_usize(v),
    {
        Letter::from(v)
    }
}

impl FromSpecImpl<usize> for Letter {
    open spec fn obeys_from_spec() -> bool {
        true
    }

    open spec fn from_spec(v: usize) -> Letter {
        letter_from_usize(v)
    }
}

/// A scrabble tile, one of the 26 letters or a blank.
#[derive(Debug, Clone, Copy, PartialEq, Eq, Structural, Hash, PartialOrd, Ord)]
pub enum Tile {
    /// The tile is a letter (A..=Z)
    Letter(Letter),
    /// The tile is a blank, which can act as any single letter,
    /// but has zero score.
    Blank(Option<Letter>),
}

/// The score of the tile numbered `i` (letters `0..=25`, the blank 26).
pub open spec fn score_of_index(i: nat) -> nat {
    if i == 0 { 1 }
    else if i == 1 { 3 }
    else if i == 2 { 3 }
    else if i == 3 { 2 }
    else if i == 4 { 1 }
    else if i == 5 { 4 }
    else if i == 6 { 2 }
    else if i == 7 { 4 }
    else if i == 8 { 1 }
    else if i == 9 { 8 }
    else if i == 10 { 5 }
    else if i == 11 { 1 }
    else if i == 12 { 3 }
    else if i == 13 { 1 }
    else if i == 14 { 1 }
    else if i == 15 { 3 }
    else if i == 16 { 10 }
    else if i == 17 { 1 }
    else if i == 18 { 1 }
    else if i == 19 { 1 }
    else if i == 20 { 1 }
    else if i == 21 { 4 }
    else if i == 22 { 4 }
    else if i == 23 { 8 }
    else if i == 24 { 4 }
    else if i == 25 { 10 }
    else { 0 }
}

/// The official tile values: one point for A, E, I, L, N, O, R, S, T and
/// U; two for D and G; three for B, C, M and P; four for F, H, V, W and Y;
/// five for K; eight for J and X; ten for Q and Z; nothing for a blank.
pub proof fn law_official_scores()
    ensures
        score_of_index(0) == 1,  // A
        score_of_index(1) == 3,  // B
        score_of_index(2) == 3,  // C
        score_of_index(3) == 2,  // D
        score_of_index(4) == 1,  // E
        score_of_index(5) == 4,  // F
        score_of_index(6) == 2,  // G
        score_of_index(7) == 4,  // H
        score_of_index(8) == 1,  // I
        score_of_index(9) == 8,  // J
        score_of_index(10) == 5,  // K
        score_of_index(11) == 1,  // L
        score_of_index(12) == 3,  // M
        score_of_index(13) == 1,  // N
        score_of_index(14) == 1,  // O
        score_of_index(15) == 3,  // P
        score_of_index(16) == 10,  // Q
        score_of_index(17) == 1,  // R
        score_of_index(18) == 1,  // S
        score_of_index(19) == 1,  // T
        score_of_index(20) == 1,  // U
        score_of_index(21) == 4,  // V
        score_of_index(22) == 4,  // W
        score_of_index(23) == 8,  // X
        score_of_index(24) == 4,  // Y
        score_of_index(25) == 10,  // Z
        score_of_index(26) == 0,  // blank
{
}

impl Tile {
    /// The number of the tile: its letter's number, or 26 for a blank.
    pub open spec fn index(self) -> nat {
        match self {
            Tile::Letter(l) => l.index(),
            Tile::Blank(_) => 26,
        }
    }

    /// The tile numbered `i`: a letter for `i < 26`, otherwise an
    /// unassigned blank.
    pub open spec fn spec_from_index(i: nat) -> Tile {
        if i < 26 {
            Tile::Letter(Letter::with_index(i))
        } else {
            Tile::Blank(None)
        }
    }

    /// The score of the tile.
    pub open spec fn spec_score(self) -> nat {
        score_of_index(self.index())
    }

    /// The letter the tile stands for, if any.
    pub open spec fn spec_letter(self) -> Option<Letter> {
        match self {
            Tile::Letter(l) => Some(l),
            Tile::Blank(opt) => opt,
        }
    }

    /// Gets the number of the tile, `0..=25` for letters, 26 for a blank.
    pub fn to_index(self) -> (r: usize)
        ensures
            r == self.index(),
            r < 27,
    {
        match self {
            Tile::Letter(l) => l.to_index(),
            Tile::Blank(_) => 26,
        }
    }

    /// Gets the tile numbered `i`: a letter for `i < 26`, otherwise a blank.
    pub fn from_index(i: usize) -> (t: Tile)
        ensures
            t == Tile::spec_from_index(i as nat),
            i < 27 ==> t.index() == i,
    {
        if i < 26 {
            proof {
                assert(i % 256 == i);
            }
            Tile::Letter(Letter::from(i))
        } else {
            Tile::Blank(None)
        }
    }

    /// Checks whether `self` is a blank tile.
    pub fn is_blank(&self) -> (r: bool)
        ensures
            r == (self is Blank),
    {
        match self {
            Tile::Blank(_) => true,
            Tile::Letter(_) => false,
        }
    }

    /// A blank tile.
    pub fn blank() -> (t: Tile)
        ensures
            t == Tile::Blank(None),
    {
        Tile::Blank(None)
    }

    /// Gets the letter that the tile represents. A blank with no letter
    /// chosen gives [`GameError::MissingLetter`].
    pub fn letter(&self) -> (r: GameResult<Letter>)
        ensures
            r == (match self.spec_letter() {
                Some(l) => Ok(l),
                None => Err(GameError::MissingLetter),
            }),
    {
        match self {
            Tile::Letter(l) => Ok(*l),
            Tile::Blank(opt) => match opt {
                Some(l) => Ok(*l),
                None => Err(GameError::MissingLetter),
            },
        }
    }

    /// Returns all 27 tiles in order: the letters, then the blank.
    pub fn iter() -> (r: Vec<Tile>)
        ensures
            r@.len() == 27,
            forall|i: int| 0 <= i < 27 ==> #[trigger] r@[i] == Tile::spec_from_index(i as nat),
    {
        let mut v: Vec<Tile> = Vec::new();
        let mut i: usize = 0;
        while i < 27
            invariant
                i <= 27,
                v@.len() == i,
                forall|j: int| 0 <= j < i ==> #[trigger] v@[j] == Tile::spec_from_index(j as nat),
            decreases 27 - i,
        {
            v.push(Tile::from_index(i));
            i = i + 1;
        }
        v
    }

    /// Gets the score of the tile.
    pub fn score(&self) -> (r: usize)
        ensures
            r == self.spec_score(),
            r <= 10,
    {
        let i = self.to_index();
        if i == 0 { 1 }
        else if i == 1 { 3 }
        else if i == 2 { 3 }
        else if i == 3 { 2 }
        else if i == 4 { 1 }
        else if i == 5 { 4 }
        else if i == 6 { 2 }
        else if i == 7 { 4 }
        else if i == 8 { 1 }
        else if i == 9 { 8 }
        else if i == 10 { 5 }
        else if i == 11 { 1 }
        else if i == 12 { 3 }
        else if i == 13 { 1 }
        else if i == 14 { 1 }
        else if i == 15 { 3 }
        else if i == 16 { 10 }
        else if i == 17 { 1 }
        else if i == 18 { 1 }
        else if i == 19 { 1 }
        else if i == 20 { 1 }
        else if i == 21 { 4 }
        else if i == 22 { 4 }
        else if i == 23 { 8 }
        else if i == 24 { 4 }
        else if i == 25 { 10 }
        else { 0 }
    }
}

impl From<Letter> for Tile {
    fn from(letter: Letter) -> (t: Tile) {
        Tile::Letter(letter)
    }
}

impl FromSpecImpl<Letter> for Tile {
    open spec fn obeys_from_spec() -> bool {
        true
    }

    open spec fn from_spec(letter: Letter) -> Tile {
        Tile::Letter(letter)
    }
}

impl From<Option<Letter>> for Tile {
    fn from(op: Option<Letter>) -> (t: Tile) {
        Tile::Blank(op)
    }
}

impl FromSpecImpl<Option<Letter>> for Tile {
    open spec fn obeys_from_spec() -> bool {
        true
    }

    open spec fn from_spec(op: Option<Letter>) -> Tile {
        Tile::Blank(op)
    }
}

impl From<Tile> for usize {
    fn from(tile: Tile) -> (r: usize) {
        tile.to_index()
    }
}

impl FromSpecImpl<Tile> for usize {
    open spec fn obeys_from_spec() -> bool {
        true
    }

    open spec fn from_spec(tile: Tile) -> usize {
        tile.index() as usize
    }
}

impl From<usize> for Tile {
    fn from(i: usize) -> (t: Tile) {
        Tile::from_index(i)
    }
}

impl FromSpecImpl<usize> for Tile {
    open spec fn obeys_from_spec() -> bool {
        true
    }

    open spec fn from_spec(i: usize) -> Tile {
        Tile::spec_from_index(i as nat)
    }
}

impl From<char> for Tile {
    fn from(ch: char) -> (t: Tile) {
        match Letter::new(ch) {
            Some(letter) => Tile::Letter(letter),
            None => Tile::Blank(None),
        }
    }
}

impl FromSpecImpl<char> for Tile {
    open spec fn obeys_from_spec() -> bool {
        true
    }

    open spec fn from_spec(ch: char) -> Tile {
        match Letter::spec_new(ch) {
            Some(letter) => Tile::Letter(letter),
            None => Tile::Blank(None),
        }
    }
}

impl From<Letter> for usize {
    fn from(letter: Letter) -> (r: usize) {
        letter.to_index()
    }
}

impl FromSpecImpl<Letter> for usize {
    open spec fn obeys_from_spec() -> bool {
        true
    }

    open spec fn from_spec(letter: Letter) -> usize {
        letter.index() as usize
    }
}

impl From<Letter> for char {
    fn from(letter: Letter) -> (c: char) {
        letter.to_char()
    }
}

impl FromSpecImpl<Letter> for char {
    open spec fn obeys_from_spec() -> bool {
        true
    }

    open spec fn from_spec(letter: Letter) -> char {
        (letter.index() + 65) as char
    }
}

/// Facts relating a letter to its number.
pub broadcast group group_letter {
    Letter::lemma_index_determines,
    Letter::lemma_with_index,
}

} // verus!
