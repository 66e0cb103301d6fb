use scrabble::ai::highest_scoring::HighestScoring;
use scrabble::ai::longest_word::LongestWord;
use scrabble::ai::lookup::columns_valid;
use scrabble::ai::movegen::{gen, GeneratedPlay};
use scrabble::ai::{fallback_play, last_max_index};
use scrabble::game::board::Board;
use scrabble::game::play::Play;
use scrabble::game::rack::Rack;
use scrabble::game::tile::{Letter, Tile};
use scrabble::util::fsm::{FastFsm, FsmBuilder};
use scrabble::util::pos::Pos;

fn dictionary() -> FastFsm {
    let mut builder = FsmBuilder::default();
    // Every letter on the test boards begins some word, so that each
    // column can be read by the machine.
    for word in ["at", "cat", "cats", "tab"] {
        builder.insert(word);
    }
    builder.build()
}

fn tile(ch: char) -> Tile {
    Tile::Letter(Letter::new(ch).unwrap())
}

fn rack_of(letters: &str) -> Rack {
    let tiles: Vec<Tile> = letters
        .chars()
        .map(|ch| if ch == '_' { Tile::blank() } else { tile(ch) })
        .collect();
    Rack::new_with_tiles(&tiles)
}

fn generated(tiles: usize, score: usize) -> GeneratedPlay {
    GeneratedPlay {
        tile_positions: (0..tiles).map(|i| (Pos::from_usize(i), tile('a'))).collect(),
        score,
        cross_count: 0,
        len: tiles,
    }
}

fn placed(play: &Play) -> Vec<(Pos, Tile)> {
    match play {
        Play::Place(tp) => tp.clone(),
        other => panic!("expected a placement, got {other:?}"),
    }
}

#[test]
fn last_max_index_picks_the_last_greatest() {
    assert_eq!(last_max_index(&vec![]), None);
    assert_eq!(last_max_index(&vec![3, 9, 1, 9, 2]), Some(3));
    assert_eq!(last_max_index(&vec![5]), Some(0));
}

#[test]
fn highest_scoring_pick() {
    let ai = HighestScoring;
    assert!(matches!(ai.pick(vec![]), Play::Pass));
    let plays = vec![generated(1, 5), generated(2, 12), generated(3, 12), generated(4, 7)];
    assert_eq!(placed(&ai.pick(plays)).len(), 3);
}

#[test]
fn longest_word_pick() {
    let ai = LongestWord;
    assert!(matches!(ai.pick(vec![]), Play::Pass));
    // More tiles beat a higher score; among equal lengths the score decides.
    let plays = vec![generated(2, 40), generated(3, 5), generated(3, 9), generated(1, 100)];
    let chosen = ai.pick(plays);
    assert_eq!(placed(&chosen).len(), 3);
    let plays = vec![generated(3, 9), generated(3, 5)];
    let first = placed(&ai.pick(plays));
    assert_eq!(first.len(), 3);
}

/// A board holding CAT across the start square.
fn board_with_cat(fsm: &FastFsm) -> Board {
    let mut board = Board::new();
    let tiles: Vec<(Pos, Tile)> = "cat"
        .chars()
        .enumerate()
        .map(|(i, ch)| (Pos::from_usize(7 * 15 + 6 + i), tile(ch)))
        .collect();
    assert_eq!(board.make_placement(&tiles, fsm), Ok(10));
    board
}

/// The score a placement makes on `board`, if it is accepted.
fn replay(board: &Board, tp: &[(Pos, Tile)], fsm: &FastFsm) -> Option<usize> {
    let mut b = board.clone();
    b.make_placement(tp, fsm).ok()
}

#[test]
fn opening_moves_cover_the_start_square() {
    let fsm = dictionary();
    let board = Board::new();
    let mut plays = Vec::new();
    gen(&board, &rack_of("catsxqz"), &fsm, &mut plays);
    assert!(!plays.is_empty());
    for gp in &plays {
        assert!(gp.tile_positions.iter().any(|(p, _)| p.index() == 112));
        assert_eq!(replay(&board, &gp.tile_positions, &fsm), Some(gp.score));
    }
    // CAT across the start square, from (7, 5).
    let cat: Vec<(Pos, Tile)> = "cat".chars().enumerate().map(|(i, ch)| (Pos::from_usize(7 * 15 + 5 + i), tile(ch))).collect();
    assert!(plays.iter().any(|gp| gp.tile_positions == cat));
}

#[test]
fn generated_plays_are_legal() {
    let fsm = dictionary();
    let board = board_with_cat(&fsm);
    assert!(columns_valid(&fsm, board.grid_h()));
    assert!(columns_valid(&fsm, board.grid_v()));
    let rack = rack_of("catsxqz");
    let mut plays = Vec::new();
    gen(&board, &rack, &fsm, &mut plays);
    assert!(!plays.is_empty());
    for gp in &plays {
        assert_eq!(replay(&board, &gp.tile_positions, &fsm), Some(gp.score));
    }
    // CATS, by adding S after CAT: four letters long, no word across, and
    // 3 + 1 + 1 + 1 with no premium under the S.
    let cats = plays
        .iter()
        .find(|gp| gp.tile_positions == vec![(Pos::from_usize(7 * 15 + 9), tile('s'))])
        .expect("CATS is generated");
    assert_eq!((cats.len, cats.cross_count, cats.score), (4, 0, 6));
}

#[test]
fn highest_scoring_plays_the_best_placement() {
    let fsm = dictionary();
    let board = board_with_cat(&fsm);
    let rack = rack_of("catsxqz");
    let mut plays = Vec::new();
    gen(&board, &rack, &fsm, &mut plays);
    let best = plays.iter().map(|gp| gp.score).max().unwrap();
    let tp = placed(&HighestScoring.select_play(&fsm, &board, &rack));
    let chosen = plays.iter().find(|gp| gp.tile_positions == tp).unwrap();
    assert_eq!(chosen.score, best);
}

#[test]
fn longest_word_plays_the_most_tiles() {
    let fsm = dictionary();
    let board = board_with_cat(&fsm);
    let rack = rack_of("catsxqz");
    let mut plays = Vec::new();
    gen(&board, &rack, &fsm, &mut plays);
    let most = plays.iter().map(|gp| gp.tile_positions.len()).max().unwrap();
    let tp = placed(&LongestWord.select_play(&fsm, &board, &rack));
    assert_eq!(tp.len(), most);
}

#[test]
fn no_placement_passes() {
    let fsm = dictionary();
    let board = board_with_cat(&fsm);
    let rack = rack_of("qqqzzzx");
    assert!(matches!(HighestScoring.select_play(&fsm, &board, &rack), Play::Pass));
}

#[test]
fn fallback_redraws_cheap_tiles() {
    let rack = rack_of("aqeztsb");
    // In tile order: A, B, E, Q, S, T, Z; Q and Z score ten and stay.
    match fallback_play(&rack, 3) {
        Play::Redraw(tiles) => assert_eq!(tiles, vec![tile('a'), tile('b'), tile('e')]),
        other => panic!("expected a redraw, got {other:?}"),
    }
    match fallback_play(&rack, 100) {
        Play::Redraw(tiles) => assert_eq!(tiles.len(), 5),
        other => panic!("expected a redraw, got {other:?}"),
    }
}

#[test]
fn fallback_passes() {
    // Not a full rack.
    assert!(matches!(fallback_play(&rack_of("aeiou"), 50), Play::Pass));
    // Nothing cheap enough.
    assert!(matches!(fallback_play(&rack_of("qqqzzzq"), 50), Play::Pass));
    // An empty bag.
    assert!(matches!(fallback_play(&rack_of("aeioust"), 0), Play::Pass));
}

/// The squares of a placement, in increasing order, with their tiles.
fn sorted(tp: &[(Pos, Tile)]) -> Vec<(usize, Tile)> {
    let mut v: Vec<(usize, Tile)> = tp.iter().map(|(p, t)| (p.index(), *t)).collect();
    v.sort_by_key(|(i, _)| *i);
    v
}

/// Checks that every legal placement of one or two of the tiles `letters`
/// (two within four squares of each other in a line) is among the plays
/// generated for them on `board`, and scores what the board gives.
fn all_small_placements_generated(board: &Board, fsm: &FastFsm, letters: &[char], rack: &str) {
    let mut plays = Vec::new();
    gen(board, &rack_of(rack), fsm, &mut plays);
    let found: Vec<Vec<(usize, Tile)>> = plays.iter().map(|gp| sorted(&gp.tile_positions)).collect();
    for gp in &plays {
        assert_eq!(replay(board, &gp.tile_positions, fsm), Some(gp.score));
    }
    let mut legal = 0;
    for p in 0..225usize {
        for &a in letters {
            let tp = vec![(Pos::from_usize(p), tile(a))];
            if replay(board, &tp, fsm).is_some() {
                legal += 1;
                assert!(found.contains(&sorted(&tp)), "missing {tp:?}");
            }
            for step in [1usize, 15] {
                for gap in 1..=4usize {
                    let q = p + step * gap;
                    if q >= 225 || (step == 1 && q / 15 != p / 15) {
                        continue;
                    }
                    for &b in letters {
                        if a == b {
                            continue;
                        }
                        let tp = vec![(Pos::from_usize(p), tile(a)), (Pos::from_usize(q), tile(b))];
                        if replay(board, &tp, fsm).is_some() {
                            legal += 1;
                            assert!(found.contains(&sorted(&tp)), "missing {tp:?}");
                        }
                    }
                }
            }
        }
    }
    assert!(legal > 0);
}

#[test]
fn every_legal_placement_of_one_or_two_tiles_is_generated() {
    let fsm = dictionary();
    all_small_placements_generated(&board_with_cat(&fsm), &fsm, &['c', 'a', 't', 's'], "cats");
    all_small_placements_generated(&Board::new(), &fsm, &['c', 'a', 't', 's'], "cats");
}

#[test]
fn a_word_running_on_over_board_tiles_is_generated() {
    // C and A above the T of CAT spell CAT down the column, the word going
    // on past the last tile placed.
    let fsm = dictionary();
    let board = board_with_cat(&fsm);
    let tp = vec![(Pos::from_usize(5 * 15 + 8), tile('c')), (Pos::from_usize(6 * 15 + 8), tile('a'))];
    let score = replay(&board, &tp, &fsm).unwrap();
    let mut plays = Vec::new();
    gen(&board, &rack_of("cats"), &fsm, &mut plays);
    let gp = plays.iter().find(|gp| sorted(&gp.tile_positions) == sorted(&tp)).expect("CAT down is generated");
    assert_eq!((gp.score, gp.len), (score, 3));
}

#[test]
fn no_play_is_generated_twice() {
    let fsm = dictionary();
    let board = board_with_cat(&fsm);
    let mut plays = Vec::new();
    gen(&board, &rack_of("cats_"), &fsm, &mut plays);
    let mut seen: Vec<Vec<(usize, Tile)>> = Vec::new();
    for gp in &plays {
        let tp = sorted(&gp.tile_positions);
        assert!(!seen.contains(&tp), "{tp:?} twice");
        seen.push(tp);
    }
    assert!(seen.len() > 1);
}

#[test]
fn generated_scores_are_the_board_scores() {
    // A play along row 10 whose S lands on a double word square and ends
    // SATS down column 10: AS scores (1 + 1) * 2, SATS scores 4 * 2, twelve
    // in all, the cross word doubled once.
    let mut builder = FsmBuilder::default();
    for word in ["a", "as", "at", "c", "cats", "s", "sat", "sats", "t"] {
        builder.insert(word);
    }
    let fsm = builder.build();
    let at = |r: usize, c: usize, ch: char| (Pos::from_usize(r * 15 + c), tile(ch));
    let mut board = Board::new();
    assert!(board.make_placement(&[at(7, 7, 'c'), at(7, 8, 'a'), at(7, 9, 't'), at(7, 10, 's')], &fsm).is_ok());
    assert!(board.make_placement(&[at(8, 10, 'a'), at(9, 10, 't')], &fsm).is_ok());
    let mut plays = Vec::new();
    gen(&board, &rack_of("as"), &fsm, &mut plays);
    let tp = vec![at(10, 9, 'a'), at(10, 10, 's')];
    let gp = plays.iter().find(|gp| gp.tile_positions == tp).expect("AS is generated");
    assert_eq!(gp.score, 12);
    assert_eq!(gp.cross_count, 1);
    for gp in &plays {
        assert_eq!(replay(&board, &gp.tile_positions, &fsm), Some(gp.score));
    }
}
