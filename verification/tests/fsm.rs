use scrabble::util::fsm::{FastFsm, Fsm, FsmBuilder, SmallFsm, StateId};

fn build_fast() -> FastFsm {
    let mut builder = FsmBuilder::default();

    builder.insert("bat");
    builder.insert("batman");
    builder.insert("bats");
    builder.insert("cat");
    builder.insert("cats");

    builder.build()
}

fn build_small() -> SmallFsm {
    let mut builder = FsmBuilder::default();

    builder.insert("bat");
    builder.insert("batman");
    builder.insert("bats");
    builder.insert("cat");
    builder.insert("cats");

    builder.build_small().unwrap()
}

#[test]
fn fast_fsm_convert() {
    let fast_fsm_1 = build_fast();
    let small_fsm = SmallFsm::from_fast(fast_fsm_1.clone());
    let fast_fsm_2 = FastFsm::from(small_fsm);

    assert_eq!(fast_fsm_1, fast_fsm_2);
}

#[test]
fn fast_fsm_accepts() {
    let fast_fsm = build_fast();

    assert!(fast_fsm.accepts("bat"));
    assert!(fast_fsm.accepts("batman"));
    assert!(fast_fsm.accepts("bats"));
    assert!(fast_fsm.accepts("cat"));
    assert!(fast_fsm.accepts("cats"));

    assert!(!fast_fsm.accepts("batma"));
    assert!(!fast_fsm.accepts("zzzzz"));
    assert!(!fast_fsm.accepts(""));
}

#[test]
fn fast_fsm_traverse() {
    let fast_fsm = build_fast();

    assert!(fast_fsm.traverse("batma").is_some());
    assert!(!fast_fsm.is_terminal(fast_fsm.traverse("batma").unwrap()));
    assert!(fast_fsm.is_terminal(fast_fsm.traverse("batman").unwrap()));
}

#[test]
fn fast_fsm_transitions() {
    let fast_fsm = build_fast();

    let transition_count = |seq| fast_fsm.transitions(fast_fsm.traverse(seq).unwrap()).len();

    assert_eq!(2, transition_count("bat"));
    assert_eq!(0, transition_count("batman"));
    assert_eq!(2, transition_count(""));
}

#[test]
fn small_fsm_convert() {
    let small_fsm_1 = build_small();
    let fast_fsm = FastFsm::from(small_fsm_1.clone());
    let small_fsm_2 = SmallFsm::from_fast(fast_fsm);

    assert_eq!(small_fsm_1.transition_count(), small_fsm_2.transition_count());
    assert_eq!(small_fsm_1.state_count(), small_fsm_2.state_count());
}

#[test]
fn small_fsm_accepts() {
    let fast_fsm = build_small();

    assert!(fast_fsm.accepts("bat"));
    assert!(fast_fsm.accepts("batman"));
    assert!(fast_fsm.accepts("bats"));
    assert!(fast_fsm.accepts("cat"));
    assert!(fast_fsm.accepts("cats"));

    assert!(!fast_fsm.accepts("batma"));
    assert!(!fast_fsm.accepts("zzzzz"));
    assert!(!fast_fsm.accepts(""));
}

#[test]
fn small_fsm_traverse() {
    let fast_fsm = build_small();

    assert!(fast_fsm.traverse("batma").is_some());
    assert!(!fast_fsm.is_terminal(fast_fsm.traverse("batma").unwrap()));
    assert!(fast_fsm.is_terminal(fast_fsm.traverse("batman").unwrap()));
}

#[test]
fn small_fsm_transitions() {
    let fast_fsm = build_small();

    let transition_count = |seq| fast_fsm.transitions(fast_fsm.traverse(seq).unwrap()).len();

    assert_eq!(2, transition_count("bat"));
    assert_eq!(0, transition_count("batman"));
    assert_eq!(2, transition_count(""));
}

#[test]
fn small_fsm_limits_cover_the_transitions() {
    let small_fsm = build_small();
    let n = small_fsm.state_count();
    let mut expected_start = 0;
    for i in 0..n {
        let (start, end) = small_fsm.transition_limits(StateId(i));
        assert_eq!(start, expected_start);
        assert!(start <= end);
        assert_eq!(end - start, small_fsm.transitions(StateId(i)).len());
        expected_start = end;
    }
    assert_eq!(expected_start, small_fsm.transition_count());
}

#[test]
fn only_beginnings_of_words_traverse() {
    let fast_fsm = build_fast();
    let small_fsm = build_small();
    for word in ["bat", "batman", "bats", "cat", "cats"] {
        for end in 0..=word.len() {
            assert!(fast_fsm.traverse(&word[..end]).is_some());
            assert!(small_fsm.traverse(&word[..end]).is_some());
        }
    }
    for seq in ["zzzzz", "a", "bad", "batmen", "catsx", "cb"] {
        assert!(fast_fsm.traverse(seq).is_none());
        assert!(small_fsm.traverse(seq).is_none());
    }
}
