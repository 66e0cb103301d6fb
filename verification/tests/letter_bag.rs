use scrabble::game::letter_bag::LetterBag;
use scrabble::game::rack::RACK_SIZE;
use scrabble::game::tile::Tile;

#[test]
fn draw_limits() {
    let mut letter_bag = LetterBag::default();
    assert_eq!(letter_bag.draw_many(0).len(), 0);
    assert_eq!(letter_bag.draw_many(100).len(), RACK_SIZE);
    assert_eq!(letter_bag.len(), 93);
}

#[test]
fn empty_bag() {
    let mut letter_bag = LetterBag::default();
    let mut counts = [0; 27];
    let mut removed = vec![];

    while !letter_bag.is_empty() {
        for tile in letter_bag.draw_many(RACK_SIZE) {
            counts[usize::from(tile)] += 1;
            removed.push(tile);
        }
    }

    for (i, &item) in counts.iter().enumerate() {
        assert_eq!(item, LetterBag::initial_count(Tile::from(i)));
    }

    let mut len = 0;
    while len < 100 {
        let rest: Vec<Tile> = removed[len..].iter().copied().take(7).collect();
        letter_bag.add_tiles(&rest);

        len = (len + RACK_SIZE).min(100);
    }

    assert_eq!(letter_bag.len(), len);
}

#[test]
fn draw_takes_a_tile_that_is_in_the_bag() {
    // Two kinds only: whatever number is picked, the tile drawn is one of
    // them, and the bag ends up giving back exactly its tiles.
    let mut counts = [0usize; 27];
    counts[3] = 2;
    counts[20] = 5;
    let mut bag = LetterBag::from_array(counts);
    let mut drawn = [0usize; 27];
    for n in 1..=7 {
        let tile = bag.draw().expect("the bag is not empty");
        drawn[usize::from(tile)] += 1;
        assert_eq!(bag.len(), 7 - n);
    }
    assert_eq!(drawn, counts);
    assert_eq!(bag.draw(), None);
    assert_eq!(bag.counts().to_array(), [0usize; 27]);
}
