use scrabble::game::tile::{Letter, Tile};
use scrabble::util::tile_counts::TileCounts;

fn tile(num: usize) -> Tile {
    Tile::Letter(Letter::from(num))
}

#[test]
fn tile_counts_insert_contains() {
    let mut tc = TileCounts::default();

    tc.insert(&[tile(0), tile(0), tile(1), tile(2), tile(2), tile(25)]);

    assert!(tc.contains(&[tile(0), tile(0)]));
    assert!(!tc.contains(&[tile(0), tile(0), tile(0)]));
}

#[test]
fn counts() {
    let mut tc = TileCounts::default();

    tc.insert(&[tile(0), tile(1), tile(2), tile(10), tile(9), tile(0)]);

    assert_eq!(2, tc.count(tile(0)));
    assert_eq!(1, tc.count(tile(1)));
    assert_eq!(1, tc.count(tile(2)));
    assert_eq!(1, tc.count(tile(9)));
    assert_eq!(1, tc.count(tile(10)));
}

#[test]
fn iter() {
    let mut tc = TileCounts::default();

    tc.insert(&[tile(0), tile(1), tile(2), tile(2), tile(0), tile(7), tile(20), tile(20)]);

    // should traverse in sorted order.
    let order = [0, 0, 1, 2, 2, 7, 20, 20];
    assert!(tc
        .iter()
        .into_iter()
        .zip(order)
        .all(|(a, b)| usize::from(a.letter().unwrap()) == b));
}

#[test]
fn remove() {
    let mut tc = TileCounts::default();

    tc.insert(&[tile(0), tile(0), tile(1), tile(2)]);

    assert_eq!(2, tc.count(tile(0)));
    tc.remove(&[tile(0)]);
    assert_eq!(1, tc.count(tile(0)));
    tc.remove(&[tile(0)]);
    assert_eq!(0, tc.count(tile(0)));

    assert_eq!(tc.len(), 2);
}
