//! A play (move) made by a player: a pass, a redraw of tiles, or the
//! placement of tiles on the board.
use crate::game::board::Board;
use crate::game::tile::{Letter, Tile};
use crate::util::fsm::{letters_filter, str_letters_filtered};
use crate::util::pos::{lemma_offset_beyond, Direction, Pos};
use vstd::prelude::*;

verus! {

/// A Play is the chosen action by a player on their turn. Each play can
/// either be a [`Pass`](Play::Pass), a redrawing of some of the tiles in
/// the player's rack, [`Redraw`](Play::Redraw), or the placement of up to
/// 7 tiles on the board.
///
/// Plays are not validated until they are played on a board, so [`Play`]
/// simply allows information to be stored for later use.
#[derive(Debug, Clone)]
pub enum Play {
    /// The turn is forfeit.
    Pass,
    /// Up to 7 tiles in the player's rack are redrawn from the bag.
    Redraw(Vec<Tile>),
    /// The player places up to 7 tiles on the board.
    Place(Vec<(Pos, Tile)>),
}

impl Play {
    /// Place a horizontal word.
    pub fn horizontal(start: Pos) -> (b: PlaceBuilder)
        ensures
            b.spec_start() == start,
            b.spec_dir() == Direction::East,
            b.spec_tiles() == Seq::<Tile>::empty(),
    {
        PlaceBuilder::horizontal(start)
    }

    /// Place a vertical word.
    pub fn vertical(start: Pos) -> (b: PlaceBuilder)
        ensures
            b.spec_start() == start,
            b.spec_dir() == Direction::South,
            b.spec_tiles() == Seq::<Tile>::empty(),
    {
        PlaceBuilder::vertical(start)
    }

    /// Redraw some tiles.
    pub fn redraw() -> (b: RedrawBuilder)
        ensures
            b@ == Seq::<Tile>::empty(),
    {
        RedrawBuilder::default()
    }

    /// Pass the move.
    pub fn pass() -> (p: Play)
        ensures
            p is Pass,
    {
        Play::Pass
    }
}

/// Convenient way to create a [`Play::Redraw`].
#[derive(Debug)]
pub struct RedrawBuilder {
    tiles: Vec<Tile>,
}

impl View for RedrawBuilder {
    type V = Seq<Tile>;

    /// The tiles to redraw, in order.
    closed spec fn view(&self) -> Seq<Tile> {
        self.tiles@
    }
}

impl Default for RedrawBuilder {
    fn default() -> (b: RedrawBuilder)
        ensures
            b@ == Seq::<Tile>::empty(),
    {
        RedrawBuilder { tiles: Vec::new() }
    }
}

impl RedrawBuilder {
    /// Adds a letter tile to the list to redraw.
    pub fn letter(self, letter: Letter) -> (b: RedrawBuilder)
        ensures
            b@ == self@.push(Tile::Letter(letter)),
    {
        let mut tiles = self.tiles;
        tiles.push(Tile::Letter(letter));
        RedrawBuilder { tiles }
    }

    /// Adds a blank tile to the list to redraw.
    pub fn blank(self) -> (b: RedrawBuilder)
        ensures
            b@ == self@.push(Tile::Blank(None)),
    {
        let mut tiles = self.tiles;
        tiles.push(Tile::Blank(None));
        RedrawBuilder { tiles }
    }

    /// Constructs a [`Play::Redraw`] from the tiles.
    pub fn build(self) -> (p: Play)
        ensures
            p matches Play::Redraw(ts) && ts@ == self@,
    {
        Play::Redraw(self.tiles)
    }
}

/// The tiles of `tiles` laid from `start` along `dir`, one per square,
/// up to the edge of the board, considering only the first `k`, and keeping
/// those whose square is free on the board `g`.
pub open spec fn placed_upto(start: Pos, dir: Direction, tiles: Seq<Tile>, g: Seq<Option<Tile>>, k: nat) -> Seq<(Pos, Tile)>
    decreases k,
{
    if k == 0 {
        Seq::empty()
    } else {
        let prev = placed_upto(start, dir, tiles, g, (k - 1) as nat);
        match start.spec_offset(dir, k - 1) {
            Some(p) => if g[p@] is None {
                prev.push((p, tiles[k - 1]))
            } else {
                prev
            },
            None => prev,
        }
    }
}

/// Convenient way to create a [`Play::Place`].
#[derive(Debug)]
pub struct PlaceBuilder {
    start: Pos,
    dir: Direction,
    tiles: Vec<Tile>,
}

impl PlaceBuilder {
    /// The square of the first tile.
    pub closed spec fn spec_start(&self) -> Pos {
        self.start
    }

    /// The direction the tiles are laid in.
    pub closed spec fn spec_dir(&self) -> Direction {
        self.dir
    }

    /// The tiles of the word, in order.
    pub closed spec fn spec_tiles(&self) -> Seq<Tile> {
        self.tiles@
    }

    /// A builder for a horizontal word.
    pub fn horizontal(start: Pos) -> (b: PlaceBuilder)
        ensures
            b.spec_start() == start,
            b.spec_dir() == Direction::East,
            b.spec_tiles() == Seq::<Tile>::empty(),
    {
        PlaceBuilder { start, dir: Direction::East, tiles: Vec::new() }
    }

    /// A builder for a vertical word.
    pub fn vertical(start: Pos) -> (b: PlaceBuilder)
        ensures
            b.spec_start() == start,
            b.spec_dir() == Direction::South,
            b.spec_tiles() == Seq::<Tile>::empty(),
    {
        PlaceBuilder { start, dir: Direction::South, tiles: Vec::new() }
    }

    /// Adds the latin letters of `letters` to the current word, skipping
    /// other characters.
    pub fn letters(self, letters: &str) -> (b: PlaceBuilder)
        ensures
            b.spec_start() == self.spec_start(),
            b.spec_dir() == self.spec_dir(),
            b.spec_tiles() == self.spec_tiles() + letters_filter(letters@).map_values(|l: Letter| Tile::Letter(l)),
    {
        let ls = str_letters_filtered(letters);
        let mut tiles = self.tiles;
        let ghost t0 = tiles@;
        let mut i: usize = 0;
        while i < ls.len()
            invariant
                i <= ls@.len(),
                tiles@ == t0 + ls@.subrange(0, i as int).map_values(|l: Letter| Tile::Letter(l)),
            decreases ls@.len() - i,
        {
            tiles.push(Tile::Letter(ls[i]));
            i = i + 1;
            assert(tiles@ =~= t0 + ls@.subrange(0, i as int).map_values(|l: Letter| Tile::Letter(l)));
        }
        assert(ls@.subrange(0, i as int) =~= ls@);
        PlaceBuilder { start: self.start, dir: self.dir, tiles }
    }

    /// Adds a letter tile to the current word.
    pub fn letter(self, letter: Letter) -> (b: PlaceBuilder)
        ensures
            b.spec_start() == self.spec_start(),
            b.spec_dir() == self.spec_dir(),
            b.spec_tiles() == self.spec_tiles().push(Tile::Letter(letter)),
    {
        let mut tiles = self.tiles;
        tiles.push(Tile::Letter(letter));
        PlaceBuilder { start: self.start, dir: self.dir, tiles }
    }

    /// Adds a blank tile, standing for `letter`, to the current word.
    pub fn blank(self, letter: Letter) -> (b: PlaceBuilder)
        ensures
            b.spec_start() == self.spec_start(),
            b.spec_dir() == self.spec_dir(),
            b.spec_tiles() == self.spec_tiles().push(Tile::Blank(Some(letter))),
    {
        let mut tiles = self.tiles;
        tiles.push(Tile::Blank(Some(letter)));
        PlaceBuilder { start: self.start, dir: self.dir, tiles }
    }

    /// Returns a play containing only the tiles that would not interfere
    /// with existing ones on the board.
    pub fn build(self, board: &Board) -> (p: Play)
        ensures
            p matches Play::Place(tp) && tp@ == placed_upto(
                self.spec_start(),
                self.spec_dir(),
                self.spec_tiles(),
                board@,
                self.spec_tiles().len(),
            ),
    {
        Play::Place(self.tile_positions(board))
    }

    /// Consumes the builder, producing the tiles laid from the start
    /// square along the direction, up to the edge of the board, leaving out
    /// those whose square already holds a tile.
    pub fn tile_positions(self, board: &Board) -> (r: Vec<(Pos, Tile)>)
        ensures
            r@ == placed_upto(self.spec_start(), self.spec_dir(), self.spec_tiles(), board@, self.spec_tiles().len()),
    {
        let line = self.start.project(self.dir);
        let _ = self.start.index();
        let mut r: Vec<(Pos, Tile)> = Vec::new();
        let mut k: usize = 0;
        while k < self.tiles.len()
            invariant
                k <= self.tiles@.len(),
                line@.len() >= 1,
                0 <= self.start@ < 225,
                forall|j: int| 0 <= j < line@.len() ==> self.start.spec_offset(self.dir, j) == Some(#[trigger] line@[j]),
                self.start.spec_offset(self.dir, line@.len() as int) is None,
                r@ == placed_upto(self.start, self.dir, self.tiles@, board@, k as nat),
            decreases self.tiles@.len() - k,
        {
            if k < line.len() {
                let p = line[k];
                if board.at(p).is_none() {
                    r.push((p, self.tiles[k]));
                }
            } else {
                proof {
                    lemma_offset_beyond(self.start, self.dir, line@.len() as int, k as int);
                }
            }
            k = k + 1;
        }
        r
    }
}

} // verus!
