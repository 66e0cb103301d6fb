//! Newtypes representing checked board [`Pos`]itions, [`Row`]s,
//! [`Col`]umns and orthogonal directions.
use vstd::prelude::*;
use vstd::std_specs::convert::FromSpecImpl;

verus! {

/// The number of rows on the board.
pub const ROWS: usize = 15;
/// The number of columns on the board.
pub const COLS: usize = 15;
/// The number of squares on the board.
pub const CELLS: usize = 225;

/// The distance between two numbers.
pub open spec fn dist(a: int, b: int) -> nat {
    if a > b { (a - b) as nat } else { (b - a) as nat }
}

/// Additional bonus for certain positions on the board.
#[derive(Debug, Clone, Copy, PartialEq, Eq, Structural)]
pub enum Premium {
    /// The square doubles the value of the tile placed on it
    DoubleLetter,
    /// The square triples the value of the tile placed on it
    TripleLetter,
    /// The square doubles the total value of a word placed on it
    DoubleWord,
    /// The square triples the total value of a word placed on it
    TripleWord,
    /// The center square: counts as a double word. The first word
    /// must intersect this square.
    Start,
}

impl Premium {
    /// The multiplier for a word placed on a square with this bonus.
    pub open spec fn spec_word_multiplier(self) -> nat {
        match self {
            Premium::DoubleLetter => 1,
            Premium::TripleLetter => 1,
            Premium::DoubleWord => 2,
            Premium::TripleWord => 3,
            Premium::Start => 2,
        }
    }

    /// The multiplier for a tile placed on a square with this bonus.
    pub open spec fn spec_tile_multiplier(self) -> nat {
        match self {
            Premium::DoubleLetter => 2,
            Premium::TripleLetter => 3,
            Premium::DoubleWord => 1,
            Premium::TripleWord => 1,
            Premium::Start => 1,
        }
    }

    /// Gets the multiplier for a word placed on a square with
    /// this bonus.
    pub fn word_multiplier(&self) -> (r: usize)
        ensures
            r == self.spec_word_multiplier(),
    {
        match self {
            Premium::DoubleLetter => 1,
            Premium::TripleLetter => 1,
            Premium::DoubleWord => 2,
            Premium::TripleWord => 3,
            Premium::Start => 2,
        }
    }

    /// Gets the multiplier for a tile placed on a square with
    /// this bonus.
    pub fn tile_multiplier(&self) -> (r: usize)
        ensures
            r == self.spec_tile_multiplier(),
    {
        match self {
            Premium::DoubleLetter => 2,
            Premium::TripleLetter => 3,
            Premium::DoubleWord => 1,
            Premium::TripleWord => 1,
            Premium::Start => 1,
        }
    }
}

/// The premium of the square `dr` rows and `dc` columns away from the
/// centre square.
pub open spec fn premium_at(dr: nat, dc: nat) -> Option<Premium> {
    if dr == 0 && dc == 0 {
        Some(Premium::Start)
    } else if (dr == 2 && dc == 2) || (dr == 2 && dc == 6) || (dr == 6 && dc == 2) {
        Some(Premium::TripleLetter)
    } else if (dr == 0 && dc == 4) || (dr == 4 && dc == 0) || (dr == 1 && dc == 1) || (dr == 1
        && dc == 5) || (dr == 5 && dc == 1) || (dr == 7 && dc == 4) || (dr == 4 && dc == 7) {
        Some(Premium::DoubleLetter)
    } else if (dr == 7 && dc == 7) || (dr == 0 && dc == 7) || (dr == 7 && dc == 0) {
        Some(Premium::TripleWord)
    } else if dr == dc {
        Some(Premium::DoubleWord)
    } else {
        None
    }
}

/// The (tile, word) multipliers of the square at number `i`.
pub open spec fn multipliers_at(i: int) -> (nat, nat) {
    match premium_at(dist((i / 15) as int, 7), dist((i % 15) as int, 7)) {
        Some(p) => (p.spec_tile_multiplier(), p.spec_word_multiplier()),
        None => (1, 1),
    }
}

/// The official layout of premium squares, square by square as
/// (letter, word) multipliers: triple words on the corners and the middles
/// of the edges, double words along the diagonals and on the start square,
/// triple and double letters where the board shows them, and no premium
/// elsewhere.
pub proof fn law_official_premiums()
    ensures
        // row 0
        multipliers_at(0) == (1nat, 3nat),
        multipliers_at(1) == (1nat, 1nat),
        multipliers_at(2) == (1nat, 1nat),
        multipliers_at(3) == (2nat, 1nat),
        multipliers_at(4) == (1nat, 1nat),
        multipliers_at(5) == (1nat, 1nat),
        multipliers_at(6) == (1nat, 1nat),
        multipliers_at(7) == (1nat, 3nat),
        multipliers_at(8) == (1nat, 1nat),
        multipliers_at(9) == (1nat, 1nat),
        multipliers_at(10) == (1nat, 1nat),
        multipliers_at(11) == (2nat, 1nat),
        multipliers_at(12) == (1nat, 1nat),
        multipliers_at(13) == (1nat, 1nat),
        multipliers_at(14) == (1nat, 3nat),
        // row 1
        multipliers_at(15) == (1nat, 1nat),
        multipliers_at(16) == (1nat, 2nat),
        multipliers_at(17) == (1nat, 1nat),
        multipliers_at(18) == (1nat, 1nat),
        multipliers_at(19) == (1nat, 1nat),
        multipliers_at(20) == (3nat, 1nat),
        multipliers_at(21) == (1nat, 1nat),
        multipliers_at(22) == (1nat, 1nat),
        multipliers_at(23) == (1nat, 1nat),
        multipliers_at(24) == (3nat, 1nat),
        multipliers_at(25) == (1nat, 1nat),
        multipliers_at(26) == (1nat, 1nat),
        multipliers_at(27) == (1nat, 1nat),
        multipliers_at(28) == (1nat, 2nat),
        multipliers_at(29) == (1nat, 1nat),
        // row 2
        multipliers_at(30) == (1nat, 1nat),
        multipliers_at(31) == (1nat, 1nat),
        multipliers_at(32) == (1nat, 2nat),
        multipliers_at(33) == (1nat, 1nat),
        multipliers_at(34) == (1nat, 1nat),
        multipliers_at(35) == (1nat, 1nat),
        multipliers_at(36) == (2nat, 1nat),
        multipliers_at(37) == (1nat, 1nat),
        multipliers_at(38) == (2nat, 1nat),
        multipliers_at(39) == (1nat, 1nat),
        multipliers_at(40) == (1nat, 1nat),
        multipliers_at(41) == (1nat, 1nat),
        multipliers_at(42) == (1nat, 2nat),
        multipliers_at(43) == (1nat, 1nat),
        multipliers_at(44) == (1nat, 1nat),
        // row 3
        multipliers_at(45) == (2nat, 1nat),
        multipliers_at(46) == (1nat, 1nat),
        multipliers_at(47) == (1nat, 1nat),
        multipliers_at(48) == (1nat, 2nat),
        multipliers_at(49) == (1nat, 1nat),
        multipliers_at(50) == (1nat, 1nat),
        multipliers_at(51) == (1nat, 1nat),
        multipliers_at(52) == (2nat, 1nat),
        multipliers_at(53) == (1nat, 1nat),
        multipliers_at(54) == (1nat, 1nat),
        multipliers_at(55) == (1nat, 1nat),
        multipliers_at(56) == (1nat, 2nat),
        multipliers_at(57) == (1nat, 1nat),
        multipliers_at(58) == (1nat, 1nat),
        multipliers_at(59) == (2nat, 1nat),
        // row 4
        multipliers_at(60) == (1nat, 1nat),
        multipliers_at(61) == (1nat, 1nat),
        multipliers_at(62) == (1nat, 1nat),
        multipliers_at(63) == (1nat, 1nat),
        multipliers_at(64) == (1nat, 2nat),
        multipliers_at(65) == (1nat, 1nat),
        multipliers_at(66) == (1nat, 1nat),
        multipliers_at(67) == (1nat, 1nat),
        multipliers_at(68) == (1nat, 1nat),
        multipliers_at(69) == (1nat, 1nat),
        multipliers_at(70) == (1nat, 2nat),
        multipliers_at(71) == (1nat, 1nat),
        multipliers_at(72) == (1nat, 1nat),
        multipliers_at(73) == (1nat, 1nat),
        multipliers_at(74) == (1nat, 1nat),
        // row 5
        multipliers_at(75) == (1nat, 1nat),
        multipliers_at(76) == (3nat, 1nat),
        multipliers_at(77) == (1nat, 1nat),
        multipliers_at(78) == (1nat, 1nat),
        multipliers_at(79) == (1nat, 1nat),
        multipliers_at(80) == (3nat, 1nat),
        multipliers_at(81) == (1nat, 1nat),
        multipliers_at(82) == (1nat, 1nat),
        multipliers_at(83) == (1nat, 1nat),
        multipliers_at(84) == (3nat, 1nat),
        multipliers_at(85) == (1nat, 1nat),
        multipliers_at(86) == (1nat, 1nat),
        multipliers_at(87) == (1nat, 1nat),
        multipliers_at(88) == (3nat, 1nat),
        multipliers_at(89) == (1nat, 1nat),
        // row 6
        multipliers_at(90) == (1nat, 1nat),
        multipliers_at(91) == (1nat, 1nat),
        multipliers_at(92) == (2nat, 1nat),
        multipliers_at(93) == (1nat, 1nat),
        multipliers_at(94) == (1nat, 1nat),
        multipliers_at(95) == (1nat, 1nat),
        multipliers_at(96) == (2nat, 1nat),
        multipliers_at(97) == (1nat, 1nat),
        multipliers_at(98) == (2nat, 1nat),
        multipliers_at(99) == (1nat, 1nat),
        multipliers_at(100) == (1nat, 1nat),
        multipliers_at(101) == (1nat, 1nat),
        multipliers_at(102) == (2nat, 1nat),
        multipliers_at(103) == (1nat, 1nat),
        multipliers_at(104) == (1nat, 1nat),
        // row 7
        multipliers_at(105) == (1nat, 3nat),
        multipliers_at(106) == (1nat, 1nat),
        multipliers_at(107) == (1nat, 1nat),
        multipliers_at(108) == (2nat, 1nat),
        multipliers_at(109) == (1nat, 1nat),
        multipliers_at(110) == (1nat, 1nat),
        multipliers_at(111) == (1nat, 1nat),
        multipliers_at(112) == (1nat, 2nat),
        multipliers_at(113) == (1nat, 1nat),
        multipliers_at(114) == (1nat, 1nat),
        multipliers_at(115) == (1nat, 1nat),
        multipliers_at(116) == (2nat, 1nat),
        multipliers_at(117) == (1nat, 1nat),
        multipliers_at(118) == (1nat, 1nat),
        multipliers_at(119) == (1nat, 3nat),
        // row 8
        multipliers_at(120) == (1nat, 1nat),
        multipliers_at(121) == (1nat, 1nat),
        multipliers_at(122) == (2nat, 1nat),
        multipliers_at(123) == (1nat, 1nat),
        multipliers_at(124) == (1nat, 1nat),
        multipliers_at(125) == (1nat, 1nat),
        multipliers_at(126) == (2nat, 1nat),
        multipliers_at(127) == (1nat, 1nat),
        multipliers_at(128) == (2nat, 1nat),
        multipliers_at(129) == (1nat, 1nat),
        multipliers_at(130) == (1nat, 1nat),
        multipliers_at(131) == (1nat, 1nat),
        multipliers_at(132) == (2nat, 1nat),
        multipliers_at(133) == (1nat, 1nat),
        multipliers_at(134) == (1nat, 1nat),
        // row 9
        multipliers_at(135) == (1nat, 1nat),
        multipliers_at(136) == (3nat, 1nat),
        multipliers_at(137) == (1nat, 1nat),
        multipliers_at(138) == (1nat, 1nat),
        multipliers_at(139) == (1nat, 1nat),
        multipliers_at(140) == (3nat, 1nat),
        multipliers_at(141) == (1nat, 1nat),
        multipliers_at(142) == (1nat, 1nat),
        multipliers_at(143) == (1nat, 1nat),
        multipliers_at(144) == (3nat, 1nat),
        multipliers_at(145) == (1nat, 1nat),
        multipliers_at(146) == (1nat, 1nat),
        multipliers_at(147) == (1nat, 1nat),
        multipliers_at(148) == (3nat, 1nat),
        multipliers_at(149) == (1nat, 1nat),
        // row 10
        multipliers_at(150) == (1nat, 1nat),
        multipliers_at(151) == (1nat, 1nat),
        multipliers_at(152) == (1nat, 1nat),
        multipliers_at(153) == (1nat, 1nat),
        multipliers_at(154) == (1nat, 2nat),
        multipliers_at(155) == (1nat, 1nat),
        multipliers_at(156) == (1nat, 1nat),
        multipliers_at(157) == (1nat, 1nat),
        multipliers_at(158) == (1nat, 1nat),
        multipliers_at(159) == (1nat, 1nat),
        multipliers_at(160) == (1nat, 2nat),
        multipliers_at(161) == (1nat, 1nat),
        multipliers_at(162) == (1nat, 1nat),
        multipliers_at(163) == (1nat, 1nat),
        multipliers_at(164) == (1nat, 1nat),
        // row 11
        multipliers_at(165) == (2nat, 1nat),
        multipliers_at(166) == (1nat, 1nat),
        multipliers_at(167) == (1nat, 1nat),
        multipliers_at(168) == (1nat, 2nat),
        multipliers_at(169) == (1nat, 1nat),
        multipliers_at(170) == (1nat, 1nat),
        multipliers_at(171) == (1nat, 1nat),
        multipliers_at(172) == (2nat, 1nat),
        multipliers_at(173) == (1nat, 1nat),
        multipliers_at(174) == (1nat, 1nat),
        multipliers_at(175) == (1nat, 1nat),
        multipliers_at(176) == (1nat, 2nat),
        multipliers_at(177) == (1nat, 1nat),
        multipliers_at(178) == (1nat, 1nat),
        multipliers_at(179) == (2nat, 1nat),
        // row 12
        multipliers_at(180) == (1nat, 1nat),
        multipliers_at(181) == (1nat, 1nat),
        multipliers_at(182) == (1nat, 2nat),
        multipliers_at(183) == (1nat, 1nat),
        multipliers_at(184) == (1nat, 1nat),
        multipliers_at(185) == (1nat, 1nat),
        multipliers_at(186) == (2nat, 1nat),
        multipliers_at(187) == (1nat, 1nat),
        multipliers_at(188) == (2nat, 1nat),
        multipliers_at(189) == (1nat, 1nat),
        multipliers_at(190) == (1nat, 1nat),
        multipliers_at(191) == (1nat, 1nat),
        multipliers_at(192) == (1nat, 2nat),
        multipliers_at(193) == (1nat, 1nat),
        multipliers_at(194) == (1nat, 1nat),
        // row 13
        multipliers_at(195) == (1nat, 1nat),
        multipliers_at(196) == (1nat, 2nat),
        multipliers_at(197) == (1nat, 1nat),
        multipliers_at(198) == (1nat, 1nat),
        multipliers_at(199) == (1nat, 1nat),
        multipliers_at(200) == (3nat, 1nat),
        multipliers_at(201) == (1nat, 1nat),
        multipliers_at(202) == (1nat, 1nat),
        multipliers_at(203) == (1nat, 1nat),
        multipliers_at(204) == (3nat, 1nat),
        multipliers_at(205) == (1nat, 1nat),
        multipliers_at(206) == (1nat, 1nat),
        multipliers_at(207) == (1nat, 1nat),
        multipliers_at(208) == (1nat, 2nat),
        multipliers_at(209) == (1nat, 1nat),
        // row 14
        multipliers_at(210) == (1nat, 3nat),
        multipliers_at(211) == (1nat, 1nat),
        multipliers_at(212) == (1nat, 1nat),
        multipliers_at(213) == (2nat, 1nat),
        multipliers_at(214) == (1nat, 1nat),
        multipliers_at(215) == (1nat, 1nat),
        multipliers_at(216) == (1nat, 1nat),
        multipliers_at(217) == (1nat, 3nat),
        multipliers_at(218) == (1nat, 1nat),
        multipliers_at(219) == (1nat, 1nat),
        multipliers_at(220) == (1nat, 1nat),
        multipliers_at(221) == (2nat, 1nat),
        multipliers_at(222) == (1nat, 1nat),
        multipliers_at(223) == (1nat, 1nat),
        multipliers_at(224) == (1nat, 3nat),
{
}

/// A position on the board, numbered `0..225` row by row.
#[derive(Debug, Default, Clone, Copy, PartialEq, Eq, Structural, Hash, PartialOrd, Ord)]
pub struct Pos(usize);

/// A vertical coordinate from `0..=14`.
#[derive(Debug, Clone, Copy, PartialEq, Eq, Structural)]
pub struct Row(usize);

/// A horizontal coordinate from `A..=O` (`0..=14`).
#[derive(Debug, Clone, Copy, PartialEq, Eq, Structural)]
pub struct Col(usize);

/// The four orthogonal directions from a [`Pos`].
#[derive(Debug, Clone, Copy, PartialEq, Eq, Structural)]
pub enum Direction {
    /// Up
    North,
    /// Right
    East,
    /// Down
    South,
    /// Left
    West,
}

impl View for Pos {
    type V = int;

    closed spec fn view(&self) -> int {
        self.0 as int
    }
}

impl View for Row {
    type V = nat;

    closed spec fn view(&self) -> nat {
        self.0 as nat
    }
}

impl View for Col {
    type V = nat;

    closed spec fn view(&self) -> nat {
        self.0 as nat
    }
}

/// The number of the square at `row`, `col`.
pub open spec fn rc(row: int, col: int) -> int {
    row * 15 + col
}

impl Pos {
    #[verifier::type_invariant]
    spec fn inv(self) -> bool {
        self.0 < 225
    }

    /// The position numbered `i`.
    pub closed spec fn at(i: int) -> Pos {
        Pos(i as usize)
    }

    /// The row of the position.
    pub open spec fn spec_row(self) -> int {
        self@ / 15
    }

    /// The column of the position.
    pub open spec fn spec_col(self) -> int {
        self@ % 15
    }

    /// The position at `row` and `col`, if they lie on the board.
    pub open spec fn spec_from_rc(row: int, col: int) -> Option<Pos> {
        if 0 <= row < 15 && 0 <= col < 15 {
            Some(Pos::at(row * 15 + col))
        } else {
            None
        }
    }

    /// The position `count` squares away from `self` in `dir`, if on
    /// the board.
    pub open spec fn spec_offset(self, dir: Direction, count: int) -> Option<Pos> {
        let (dr, dc) = dir.unit();
        Pos::spec_from_rc(self.spec_row() + dr * count, self.spec_col() + dc * count)
    }

    /// A position is determined by its number.
    pub broadcast proof fn lemma_at_view(p: Pos)
        ensures
            #[trigger] Pos::at(p@) == p,
    {
    }

    /// The number of the position numbered `i` is `i`.
    pub broadcast proof fn lemma_view_at(i: int)
        requires
            0 <= i <= usize::MAX,
        ensures
            #[trigger] Pos::at(i)@ == i,
    {
    }

    /// Gets the number of the position.
    pub fn index(&self) -> (r: usize)
        ensures
            r == self@,
            r < 225,
    {
        proof {
            use_type_invariant(self);
        }
        self.0
    }

    /// The position numbered `pos % 225`.
    pub fn from_usize(pos: usize) -> (p: Pos)
        ensures
            p@ == pos % 225,
    {
        Pos(pos % 225)
    }

    /// The position at `row` and `col`.
    pub fn from_row_col(row: Row, col: Col) -> (p: Pos)
        ensures
            p@ == row@ * 15 + col@,
            p.spec_row() == row@,
            p.spec_col() == col@,
    {
        proof {
            use_type_invariant(&row);
            use_type_invariant(&col);
        }
        Pos(row.0 * COLS + col.0)
    }

    /// Swaps the row and column of a [`Pos`].
    pub fn swap_rc(&self) -> (p: Pos)
        ensures
            p.spec_row() == self.spec_col(),
            p.spec_col() == self.spec_row(),
            p@ == self.spec_col() * 15 + self.spec_row(),
    {
        let row = Row::from_usize(self.col().index());
        let col = Col::from_usize(self.row().index());
        Pos::from_row_col(row, col)
    }

    /// Gets the `Pos` for the start square.
    pub fn start() -> (p: Pos)
        ensures
            p@ == 112,
            p.spec_row() == 7,
            p.spec_col() == 7,
    {
        Pos(112)
    }

    /// Checks whether the `Pos` is the start square.
    pub fn is_start(&self) -> (r: bool)
        ensures
            r == (self@ == 112),
    {
        self.index() == 112
    }

    /// Gets the optional tile bonus of the `Pos`.
    pub fn premium(&self) -> (r: Option<Premium>)
        ensures
            r == premium_at(dist(self.spec_row() as int, 7), dist(self.spec_col() as int, 7)),
    {
        let row = self.row().index();
        let col = self.col().index();
        let dr: usize = if row > 7 { row - 7 } else { 7 - row };
        let dc: usize = if col > 7 { col - 7 } else { 7 - col };
        if dr == 0 && dc == 0 {
            Some(Premium::Start)
        } else if (dr == 2 && dc == 2) || (dr == 2 && dc == 6) || (dr == 6 && dc == 2) {
            Some(Premium::TripleLetter)
        } else if (dr == 0 && dc == 4) || (dr == 4 && dc == 0) || (dr == 1 && dc == 1) || (dr == 1
            && dc == 5) || (dr == 5 && dc == 1) || (dr == 7 && dc == 4) || (dr == 4 && dc == 7) {
            Some(Premium::DoubleLetter)
        } else if (dr == 7 && dc == 7) || (dr == 0 && dc == 7) || (dr == 7 && dc == 0) {
            Some(Premium::TripleWord)
        } else if dr == dc {
            Some(Premium::DoubleWord)
        } else {
            None
        }
    }

    /// Gets the tuple (tile_multiplier, word_multiplier) for the position.
    /// Defaults to (1, 1).
    pub fn premium_multipliers(&self) -> (r: (usize, usize))
        ensures
            r.0 == multipliers_at(self@).0,
            r.1 == multipliers_at(self@).1,
            1 <= r.0 <= 3,
            1 <= r.1 <= 3,
    {
        match self.premium() {
            Some(bonus) => (bonus.tile_multiplier(), bonus.word_multiplier()),
            None => (1, 1),
        }
    }

    /// Gets the row number.
    pub fn row(&self) -> (r: Row)
        ensures
            r@ == self.spec_row(),
    {
        proof {
            use_type_invariant(self);
        }
        Row((self.0 / COLS) % ROWS)
    }

    /// Gets the column number.
    pub fn col(&self) -> (c: Col)
        ensures
            c@ == self.spec_col(),
    {
        proof {
            use_type_invariant(self);
        }
        Col(self.0 % COLS)
    }

    /// Gets the pair (row, col) for the coordinate.
    pub fn row_col(&self) -> (r: (Row, Col))
        ensures
            r.0@ == self.spec_row(),
            r.1@ == self.spec_col(),
    {
        (self.row(), self.col())
    }

    /// Finds the pos in the grid offset by 1 in the given direction.
    pub fn dir(&self, dir: Direction) -> (r: Option<Pos>)
        ensures
            r == self.spec_offset(dir, 1),
    {
        self.offset(dir, 1)
    }

    /// Finds the pos in the grid offset by `count` in direction `dir`.
    pub fn offset(&self, dir: Direction, count: usize) -> (r: Option<Pos>)
        requires
            count <= 0x7fff_fff0,
        ensures
            r == self.spec_offset(dir, count as int),
    {
        let (drow, dcol) = dir.vector(count);
        proof {
            match dir {
                Direction::North => {},
                Direction::South => {},
                Direction::West => {},
                Direction::East => {},
            }
            assert(-0x7fff_fff0 <= drow <= 0x7fff_fff0);
            assert(-0x7fff_fff0 <= dcol <= 0x7fff_fff0);
        }
        let (row, col) = self.row_col();
        let row: i32 = row.index() as i32 + drow;
        let col: i32 = col.index() as i32 + dcol;
        if 0 <= col && col < 15 && 0 <= row && row < 15 {
            Some(Pos((row as usize) * COLS + col as usize))
        } else {
            None
        }
    }

    /// Returns all board positions in order.
    pub fn iter() -> (r: Vec<Pos>)
        ensures
            r@.len() == 225,
            forall|i: int| 0 <= i < 225 ==> (#[trigger] r@[i])@ == i,
    {
        let mut v: Vec<Pos> = Vec::new();
        let mut i: usize = 0;
        while i < CELLS
            invariant
                i <= 225,
                v@.len() == i,
                forall|k: int| 0 <= k < i ==> (#[trigger] v@[k])@ == k,
            decreases 225 - i,
        {
            v.push(Pos(i));
            i = i + 1;
        }
        v
    }

    /// Advances the position value by 1, wrapping at the end.
    pub fn next(&self) -> (p: Pos)
        ensures
            p@ == (self@ + 1) % 225,
    {
        Pos((self.index() + 1) % CELLS)
    }

    /// All positions from the current one in the given direction,
    /// up to the edge of the board.
    pub fn project(self, dir: Direction) -> (r: Vec<Pos>)
        ensures
            r@.len() >= 1,
            forall|k: int| 0 <= k < r@.len() ==> self.spec_offset(dir, k) == Some(#[trigger] r@[k]),
            self.spec_offset(dir, r@.len() as int) is None,
    {
        let mut v: Vec<Pos> = Vec::new();
        v.push(self);
        let mut curr = self;
        proof {
            use_type_invariant(&self);
            let (dr, dc) = dir.unit();
            assert(self.spec_row() + dr * 0 == self.spec_row());
            assert(self.spec_col() + dc * 0 == self.spec_col());
            assert(self.spec_row() * 15 + self.spec_col() == self@);
        }
        loop
            invariant
                1 <= v@.len() <= 15,
                self@ < 225,
                curr == v@.last(),
                forall|k: int| 0 <= k < v@.len() ==> self.spec_offset(dir, k) == Some(#[trigger] v@[k]),
            ensures
                forall|k: int| 0 <= k < v@.len() ==> self.spec_offset(dir, k) == Some(#[trigger] v@[k]),
                v@.len() >= 1,
                self.spec_offset(dir, v@.len() as int) is None,
            decreases 15 - v@.len(),
        {
            proof {
                let k = v@.len() - 1;
                assert(self.spec_offset(dir, k) == Some(curr));
                lemma_offset_step(self, dir, k, curr);
                if v@.len() >= 15 {
                    lemma_offset_bound(self, dir, v@.len() as int);
                }
            }
            match curr.dir(dir) {
                Some(p) => {
                    v.push(p);
                    curr = p;
                },
                None => {
                    break;
                },
            }
        }
        v
    }
}

/// Stepping once more from the `k`-th position in a direction reaches the
/// `k + 1`-th.
pub proof fn lemma_offset_step(p: Pos, dir: Direction, k: int, q: Pos)
    requires
        p.spec_offset(dir, k) == Some(q),
    ensures
        q.spec_offset(dir, 1) == p.spec_offset(dir, k + 1),
{
    let (dr, dc) = dir.unit();
    let r = p.spec_row() + dr * k;
    let c = p.spec_col() + dc * k;
    assert(q@ == r * 15 + c);
    assert(q.spec_row() == r && q.spec_col() == c) by (nonlinear_arith)
        requires
            q@ == r * 15 + c,
            0 <= r < 15,
            0 <= c < 15,
    ;
    assert(dr * (k + 1) == dr * k + dr) by (nonlinear_arith);
    assert(dc * (k + 1) == dc * k + dc) by (nonlinear_arith);
}

/// At most 15 positions lie on a line.
pub proof fn lemma_offset_bound(p: Pos, dir: Direction, k: int)
    requires
        k >= 15,
        p@ < 225,
    ensures
        p.spec_offset(dir, k) is None,
{
    let (dr, dc) = dir.unit();
    assert(p.spec_row() < 15 && p.spec_col() < 15);
    if dr == -1 {
        assert(dr * k == -k);
    } else if dr == 1 {
        assert(dr * k == k);
    }
    if dc == -1 {
        assert(dc * k == -k);
    } else if dc == 1 {
        assert(dc * k == k);
    }
}

/// Once a line leaves the board it does not come back.
pub proof fn lemma_offset_beyond(p: Pos, dir: Direction, k: int, j: int)
    requires
        0 <= k <= j,
        0 <= p@ < 225,
        p.spec_offset(dir, k) is None,
    ensures
        p.spec_offset(dir, j) is None,
{
    let (dr, dc) = dir.unit();
    assert(0 <= p.spec_row() < 15 && 0 <= p.spec_col() < 15);
    if dr == -1 {
        assert(dr * k == -k && dr * j == -j);
    } else if dr == 1 {
        assert(dr * k == k && dr * j == j);
    } else {
        assert(dr * k == 0 && dr * j == 0);
    }
    if dc == -1 {
        assert(dc * k == -k && dc * j == -j);
    } else if dc == 1 {
        assert(dc * k == k && dc * j == j);
    } else {
        assert(dc * k == 0 && dc * j == 0);
    }
}

impl Row {
    #[verifier::type_invariant]
    spec fn inv(self) -> bool {
        self.0 < 15
    }

    /// The row numbered `i`.
    pub closed spec fn at(i: nat) -> Row {
        Row(i as usize)
    }

    /// The number of the row numbered `i` is `i`.
    pub broadcast proof fn lemma_view_at(i: nat)
        requires
            i <= usize::MAX,
        ensures
            #[trigger] Row::at(i)@ == i,
    {
    }

    /// Gets the row number.
    pub fn index(&self) -> (r: usize)
        ensures
            r == self@,
            r < 15,
    {
        proof {
            use_type_invariant(self);
        }
        self.0
    }

    /// The row numbered `row % 15`.
    pub fn from_usize(row: usize) -> (r: Row)
        ensures
            r@ == row % 15,
    {
        Row(row % ROWS)
    }

    /// The first row.
    pub fn first() -> (r: Row)
        ensures
            r@ == 0,
    {
        Row(0)
    }

    /// The last row.
    pub fn last() -> (r: Row)
        ensures
            r@ == 14,
    {
        Row(ROWS - 1)
    }

    /// All rows in order.
    pub fn iter() -> (r: Vec<Row>)
        ensures
            r@.len() == 15,
            forall|i: int| 0 <= i < 15 ==> (#[trigger] r@[i])@ == i,
    {
        let mut v: Vec<Row> = Vec::new();
        let mut i: usize = 0;
        while i < ROWS
            invariant
                i <= 15,
                v@.len() == i,
                forall|k: int| 0 <= k < i ==> (#[trigger] v@[k])@ == k,
            decreases 15 - i,
        {
            v.push(Row(i));
            i = i + 1;
        }
        v
    }
}

impl Col {
    #[verifier::type_invariant]
    spec fn inv(self) -> bool {
        self.0 < 15
    }

    /// The column numbered `i`.
    pub closed spec fn at(i: nat) -> Col {
        Col(i as usize)
    }

    /// The number of the column numbered `i` is `i`.
    pub broadcast proof fn lemma_view_at(i: nat)
        requires
            i <= usize::MAX,
        ensures
            #[trigger] Col::at(i)@ == i,
    {
    }

    /// Gets the column number.
    pub fn index(&self) -> (r: usize)
        ensures
            r == self@,
            r < 15,
    {
        proof {
            use_type_invariant(self);
        }
        self.0
    }

    /// The column numbered `col % 15`.
    pub fn from_usize(col: usize) -> (c: Col)
        ensures
            c@ == col % 15,
    {
        Col(col % COLS)
    }

    /// The first column.
    pub fn first() -> (c: Col)
        ensures
            c@ == 0,
    {
        Col(0)
    }

    /// The last column.
    pub fn last() -> (c: Col)
        ensures
            c@ == 14,
    {
        Col(COLS - 1)
    }

    /// All columns in order.
    pub fn iter() -> (r: Vec<Col>)
        ensures
            r@.len() == 15,
            forall|i: int| 0 <= i < 15 ==> (#[trigger] r@[i])@ == i,
    {
        let mut v: Vec<Col> = Vec::new();
        let mut i: usize = 0;
        while i < COLS
            invariant
                i <= 15,
                v@.len() == i,
                forall|k: int| 0 <= k < i ==> (#[trigger] v@[k])@ == k,
            decreases 15 - i,
        {
            v.push(Col(i));
            i = i + 1;
        }
        v
    }
}

impl Direction {
    /// The (row, column) step of one square in the direction.
    pub open spec fn unit(self) -> (int, int) {
        match self {
            Direction::North => (-1, 0),
            Direction::South => (1, 0),
            Direction::West => (0, -1),
            Direction::East => (0, 1),
        }
    }

    /// Gets a vector of `scale` squares in the direction, as (rows, columns),
    /// the scale taken as an `i32`.
    pub fn vector(&self, scale: usize) -> (r: (i32, i32))
        requires
            scale <= 0x7fff_ffff,
        ensures
            r.0 == self.unit().0 * scale,
            r.1 == self.unit().1 * scale,
    {
        let scale = scale as i32;
        match self {
            Direction::North => (-scale, 0),
            Direction::South => (scale, 0),
            Direction::West => (0, -scale),
            Direction::East => (0, scale),
        }
    }

    /// Gets the opposite direction.
    pub fn opposite(&self) -> (d: Direction)
        ensures
            d.unit().0 == -self.unit().0,
            d.unit().1 == -self.unit().1,
    {
        match self {
            Direction::North => Direction::South,
            Direction::East => Direction::West,
            Direction::South => Direction::North,
            Direction::West => Direction::East,
        }
    }

    /// Gets the perpendicular direction.
    pub fn perpendicular(&self) -> (d: Direction)
        ensures
            d == (match self {
                Direction::East => Direction::South,
                Direction::South => Direction::East,
                Direction::North => Direction::West,
                Direction::West => Direction::North,
            }),
            d.unit().0 * self.unit().0 + d.unit().1 * self.unit().1 == 0,
    {
        match self {
            Direction::East => Direction::South,
            Direction::South => Direction::East,
            Direction::North => Direction::West,
            Direction::West => Direction::North,
        }
    }
}

impl From<usize> for Pos {
    fn from(pos: usize) -> (p: Pos) {
        Pos::from_usize(pos)
    }
}

impl FromSpecImpl<usize> for Pos {
    open spec fn obeys_from_spec() -> bool {
        true
    }

    open spec fn from_spec(pos: usize) -> Pos {
        Pos::at((pos % 225) as int)
    }
}

impl From<Pos> for usize {
    fn from(p: Pos) -> (r: usize) {
        p.index()
    }
}

impl FromSpecImpl<Pos> for usize {
    open spec fn obeys_from_spec() -> bool {
        true
    }

    open spec fn from_spec(p: Pos) -> usize {
        p@ as usize
    }
}

impl From<(Row, Col)> for Pos {
    fn from(rc: (Row, Col)) -> (p: Pos) {
        Pos::from_row_col(rc.0, rc.1)
    }
}

impl FromSpecImpl<(Row, Col)> for Pos {
    open spec fn obeys_from_spec() -> bool {
        true
    }

    open spec fn from_spec(rc: (Row, Col)) -> Pos {
        Pos::at((rc.0@ * 15 + rc.1@) as int)
    }
}

impl From<(usize, usize)> for Pos {
    fn from(rc: (usize, usize)) -> (p: Pos) {
        Pos::from_row_col(Row::from_usize(rc.0), Col::from_usize(rc.1))
    }
}

impl FromSpecImpl<(usize, usize)> for Pos {
    open spec fn obeys_from_spec() -> bool {
        true
    }

    open spec fn from_spec(rc: (usize, usize)) -> Pos {
        Pos::at(((rc.0 % 15) * 15 + rc.1 % 15) as int)
    }
}

impl From<usize> for Row {
    fn from(row: usize) -> (r: Row) {
        Row::from_usize(row)
    }
}

impl FromSpecImpl<usize> for Row {
    open spec fn obeys_from_spec() -> bool {
        true
    }

    open spec fn from_spec(row: usize) -> Row {
        Row::at((row % 15) as nat)
    }
}

impl From<Row> for usize {
    fn from(row: Row) -> (r: usize) {
        row.index()
    }
}

impl FromSpecImpl<Row> for usize {
    open spec fn obeys_from_spec() -> bool {
        true
    }

    open spec fn from_spec(row: Row) -> usize {
        row@ as usize
    }
}

impl From<usize> for Col {
    fn from(col: usize) -> (c: Col) {
        Col::from_usize(col)
    }
}

impl FromSpecImpl<usize> for Col {
    open spec fn obeys_from_spec() -> bool {
        true
    }

    open spec fn from_spec(col: usize) -> Col {
        Col::at((col % 15) as nat)
    }
}

impl From<Col> for usize {
    fn from(col: Col) -> (r: usize) {
        col.index()
    }
}

impl FromSpecImpl<Col> for usize {
    open spec fn obeys_from_spec() -> bool {
        true
    }

    open spec fn from_spec(col: Col) -> usize {
        col@ as usize
    }
}

/// Facts relating positions to their numbers.
pub broadcast group group_pos {
    Pos::lemma_at_view,
    Pos::lemma_view_at,
    Row::lemma_view_at,
    Col::lemma_view_at,
}

} // verus!
