use scrabble::game::tile::Letter;
use scrabble::util::fsm::{FastFsm, Fsm, FsmBuilder, StateId};

fn build(words: &[&str]) -> FastFsm {
    let mut builder = FsmBuilder::default();
    for word in words {
        builder.insert(*word);
    }
    builder.build()
}

#[test]
fn built_machine_accepts_exactly_the_inserted_words() {
    let words = ["ab", "abc", "abd", "b", "bc", "bcd", "cd"];
    let fsm = build(&words);
    for word in words {
        assert!(fsm.accepts(word), "{word} should be accepted");
    }
    for word in ["", "a", "abcd", "ac", "bd", "c", "cde", "zz"] {
        assert!(!fsm.accepts(word), "{word} should not be accepted");
    }
}

#[test]
fn inserting_the_last_word_again_changes_nothing() {
    let once = build(&["car", "cart"]);
    let twice = build(&["car", "cart", "cart"]);
    for word in ["car", "cart", "ca", "carts"] {
        assert_eq!(once.accepts(word), twice.accepts(word));
    }
    assert_eq!(once.state_count(), twice.state_count());
}

#[test]
fn shared_suffixes_are_merged() {
    // "bats" and "cats" end alike: their endings share states.
    let fsm = build(&["bats", "cats"]);
    let unmerged = 1 + 4 + 4;
    assert!(fsm.state_count() < unmerged);
    assert!(fsm.accepts("bats") && fsm.accepts("cats"));
    assert!(!fsm.accepts("bat"));
}

#[test]
fn small_machine_agrees() {
    let mut builder = FsmBuilder::default();
    for word in ["ab", "abc", "b"] {
        builder.insert(word);
    }
    let small = builder.build_small().unwrap();
    assert!(small.accepts("ab") && small.accepts("abc") && small.accepts("b"));
    assert!(!small.accepts("a") && !small.accepts("bc"));
    let _ = small.initial_state();
}

#[test]
fn machine_parts_round_trip() {
    let fsm = build(&["ab", "b"]);
    let (parts, terminal_count) = fsm.to_parts();
    assert_eq!(parts.len(), fsm.state_count());
    let back = FastFsm::from_checked_parts(parts, terminal_count).expect("the parts make a machine");
    assert_eq!(back, fsm);
}

#[test]
fn bad_machine_parts_are_refused() {
    let a = Letter::new('a').unwrap();
    // No state at all.
    assert!(FastFsm::from_checked_parts(vec![], 0).is_none());
    // As many terminal states as states.
    assert!(FastFsm::from_checked_parts(vec![vec![]], 1).is_none());
    // A transition to a state that does not exist.
    assert!(FastFsm::from_checked_parts(vec![vec![(a, StateId(5))], vec![]], 1).is_none());
    // A label used twice.
    assert!(FastFsm::from_checked_parts(vec![vec![(a, StateId(1)), (a, StateId(1))], vec![]], 1).is_none());
    // One transition to a terminal state: accepts "a" alone.
    let ok = FastFsm::from_checked_parts(vec![vec![(a, StateId(1))], vec![]], 1).unwrap();
    assert!(ok.accepts("a"));
    assert!(!ok.accepts("aa"));
}

fn letters(word: &str) -> Vec<Letter> {
    word.chars().map(|c| Letter::new(c).unwrap()).collect()
}

#[test]
fn building_from_sorted_words_accepts_them_and_their_beginnings_traverse() {
    let words: Vec<Vec<Letter>> = ["bat", "batman", "bats", "cat", "cats"].iter().map(|w| letters(w)).collect();
    let fsm = scrabble::util::fsm::builder::build_from_words(&words);
    for word in ["bat", "batman", "bats", "cat", "cats"] {
        assert!(fsm.accepts(word));
    }
    for word in ["", "ba", "batma", "ca", "catsa", "zzzzz"] {
        assert!(!fsm.accepts(word));
    }
    for seq in ["", "b", "ba", "batma", "c", "ca"] {
        assert!(fsm.traverse(seq).is_some());
    }
    for seq in ["a", "bad", "cb", "zzzzz"] {
        assert!(fsm.traverse(seq).is_none());
    }
}

#[test]
fn insert_all_is_inserting_each_word() {
    let words: Vec<Vec<Letter>> = ["ab", "abc", "b"].iter().map(|w| letters(w)).collect();
    let mut builder = FsmBuilder::default();
    builder.insert_all(&words);
    let fsm = builder.build();
    assert!(fsm.accepts("ab"));
    assert!(fsm.accepts("abc"));
    assert!(fsm.accepts("b"));
    assert!(!fsm.accepts("a"));
}
