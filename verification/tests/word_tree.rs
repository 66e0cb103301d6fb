use scrabble::game::tile::Letter;
use scrabble::game::word_tree::WordTree;

#[test]
fn word_tree_insert_contains() {
    let mut word_tree = WordTree::default();

    word_tree.insert("abade");
    word_tree.insert("abide");
    word_tree.insert("a");
    word_tree.insert("collection");
    word_tree.insert("collect");

    assert!(!word_tree.contains("death"));
    assert!(!word_tree.contains("collecti"));
    assert!(word_tree.contains("collection"));
    assert!(word_tree.contains("abide"));
    assert!(word_tree.contains("abade"));
    assert!(!word_tree.contains("abadf"));
}

#[test]
fn every_beginning_of_an_inserted_word_is_a_path() {
    let mut word_tree = WordTree::default();
    word_tree.insert("collection");
    word_tree.insert("abide");
    let root = word_tree.root_idx();
    for word in ["collection", "abide"] {
        let letters: Vec<Letter> = word.chars().map(|c| Letter::new(c).unwrap()).collect();
        for end in 0..=letters.len() {
            assert!(word_tree.trace_word(root, &letters[..end]).is_some());
        }
    }
    let other: Vec<Letter> = "cola".chars().map(|c| Letter::new(c).unwrap()).collect();
    assert!(word_tree.trace_word(root, &other).is_none());
}
