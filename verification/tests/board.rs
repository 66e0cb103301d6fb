use scrabble::error::GameError;
use scrabble::game::board::Board;
use scrabble::game::tile::{Letter, Tile};
use scrabble::util::fsm::{FastFsm, FsmBuilder};
use scrabble::util::pos::{Col, Pos, Row};

fn dictionary() -> FastFsm {
    let mut builder = FsmBuilder::default();
    for word in ["at", "cat", "cats", "tab", "ta"] {
        builder.insert(word);
    }
    builder.build()
}

fn pos(row: usize, col: usize) -> Pos {
    Pos::from_row_col(Row::from_usize(row), Col::from_usize(col))
}

fn tile(ch: char) -> Tile {
    Tile::Letter(Letter::new(ch).unwrap())
}

fn word_at(row: usize, col: usize, word: &str) -> Vec<(Pos, Tile)> {
    word.chars()
        .enumerate()
        .map(|(i, ch)| (pos(row, col + i), tile(ch)))
        .collect()
}

fn all_empty(board: &Board) -> bool {
    (0..225).all(|i| board.at(Pos::from_usize(i)).is_none())
}

#[test]
fn first_word_on_start_doubles() {
    let fsm = dictionary();
    let mut board = Board::new();
    // C(3) A(1) T(1), the middle letter on the start square (double word).
    let score = board.make_placement(&word_at(7, 6, "cat"), &fsm);
    assert_eq!(score, Ok(10));
    assert_eq!(board.at(pos(7, 6)), Some(tile('c')));
    assert_eq!(board.at(pos(7, 7)), Some(tile('a')));
    assert_eq!(board.at(pos(7, 8)), Some(tile('t')));
}

#[test]
fn extending_a_word_scores_the_whole_word() {
    let fsm = dictionary();
    let mut board = Board::new();
    assert_eq!(board.make_placement(&word_at(7, 6, "cat"), &fsm), Ok(10));
    // Adding S makes CATS: 3 + 1 + 1 + 1, no premium under the new tile.
    assert_eq!(board.make_placement(&[(pos(7, 9), tile('s'))], &fsm), Ok(6));
}

#[test]
fn blank_scores_nothing() {
    let fsm = dictionary();
    let mut board = Board::new();
    let letter_c = Letter::new('c').unwrap();
    let tiles = vec![
        (pos(7, 6), Tile::Blank(Some(letter_c))),
        (pos(7, 7), tile('a')),
        (pos(7, 8), tile('t')),
    ];
    assert_eq!(board.make_placement(&tiles, &fsm), Ok(4));
}

#[test]
fn blank_without_letter_is_refused() {
    let fsm = dictionary();
    let mut board = Board::new();
    let tiles = vec![(pos(7, 7), Tile::Blank(None)), (pos(7, 8), tile('t'))];
    assert_eq!(board.make_placement(&tiles, &fsm), Err(GameError::MissingLetter));
    assert!(all_empty(&board));
}

#[test]
fn placement_errors_leave_board_unchanged() {
    let fsm = dictionary();
    let mut board = Board::new();

    assert_eq!(board.make_placement(&[], &fsm), Err(GameError::PlacementCount));
    let eight: Vec<(Pos, Tile)> = (0..8).map(|c| (pos(7, c), tile('a'))).collect();
    assert_eq!(board.make_placement(&eight, &fsm), Err(GameError::PlacementCount));

    let dup = vec![(pos(7, 7), tile('a')), (pos(7, 7), tile('t'))];
    assert_eq!(board.make_placement(&dup, &fsm), Err(GameError::DuplicatePosition));

    let bent = vec![(pos(7, 7), tile('a')), (pos(8, 8), tile('t'))];
    assert_eq!(board.make_placement(&bent, &fsm), Err(GameError::NoCommonLine));

    assert_eq!(board.make_placement(&word_at(0, 0, "cat"), &fsm), Err(GameError::MustIntersectStart));

    assert_eq!(board.make_placement(&[(pos(7, 7), tile('a'))], &fsm), Err(GameError::WordsNeedTwoLetters));

    assert_eq!(board.make_placement(&word_at(7, 6, "zzz"), &fsm), Err(GameError::InvalidWord));

    assert!(all_empty(&board));
}

#[test]
fn placement_errors_after_first_word() {
    let fsm = dictionary();
    let mut board = Board::new();
    assert_eq!(board.make_placement(&word_at(7, 6, "cat"), &fsm), Ok(10));

    assert_eq!(board.make_placement(&[(pos(7, 7), tile('t'))], &fsm), Err(GameError::CoincedentTiles));
    assert_eq!(board.make_placement(&word_at(0, 0, "at"), &fsm), Err(GameError::NotConnected));
    assert_eq!(board.at(pos(0, 0)), None);
    assert_eq!(board.at(pos(7, 7)), Some(tile('a')));
}

#[test]
fn undo_placement_gives_back_the_board() {
    let fsm = dictionary();
    let mut board = Board::new();
    let tiles = word_at(7, 6, "cat");
    assert_eq!(board.make_placement(&tiles, &fsm), Ok(10));
    board.undo_placement(&tiles);
    assert!(all_empty(&board));
}
