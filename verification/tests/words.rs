use scrabble::util::bitboard::BitBoard;
use scrabble::util::pos::{Direction, Pos};
use scrabble::util::words::WordBoundary;
use std::iter;

fn place_word(bb: &mut BitBoard, start: Pos, dir: Direction, len: usize) {
    for pos in iter::successors(Some(start), |x| x.offset(dir, 1)).take(len) {
        bb.set(pos);
    }
}

#[test]
fn horizontal() {
    let mut bb = BitBoard::default();
    place_word(&mut bb, Pos::start(), Direction::East, 4);

    let mut words = bb.word_boundaries();

    let first = words.next().expect("at least one word");

    assert_eq!(
        first,
        WordBoundary::new(Pos::start(), Pos::start().offset(Direction::East, 3).unwrap())
    );
    assert!(words.next().is_none());
}

#[test]
fn empty() {
    assert!(BitBoard::default().word_boundaries().next().is_none());

    let mut horizontal_bb = BitBoard::default();
    place_word(&mut horizontal_bb, Pos::start(), Direction::North, 7);
    assert!(horizontal_bb.word_boundaries().next().is_none());
}

#[test]
fn h_new() {
    let mut bb = BitBoard::default();
    place_word(&mut bb, Pos::start(), Direction::East, 4);
    place_word(
        &mut bb,
        Pos::start().offset(Direction::South, 2).unwrap(),
        Direction::East,
        6,
    );

    let mut new = BitBoard::default();
    new.set(
        Pos::start()
            .offset(Direction::South, 2)
            .unwrap()
            .offset(Direction::East, 2)
            .unwrap(),
    );

    // two words in total
    let mut words = bb.word_boundaries();
    assert!(words.next().is_some());
    assert!(words.next().is_some());
    assert!(words.next().is_none());

    // only a single word with a new letter
    let mut new_words = bb.word_boundaries().intersecting(new);
    assert_eq!(
        new_words.next(),
        Some(WordBoundary::new(
            Pos::start().offset(Direction::South, 2).unwrap(),
            Pos::start()
                .offset(Direction::South, 2)
                .unwrap()
                .offset(Direction::East, 5)
                .unwrap(),
        ))
    );
    assert!(new_words.next().is_none());
}
