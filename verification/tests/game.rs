use scrabble::error::GameError;
use scrabble::game::play::Play;
use scrabble::game::tile::{Letter, Tile};
use scrabble::game::{Game, GameOverReason, GameStatus, PlayerNum};
use scrabble::util::fsm::{FastFsm, FsmBuilder};
use scrabble::util::pos::Pos;

fn dictionary() -> FastFsm {
    let mut builder = FsmBuilder::default();
    for word in ["at", "cat", "cats"] {
        builder.insert(word);
    }
    builder.build()
}

/// Counts every tile in the bag, on the racks and on the board.
fn tiles_in_game(game: &Game) -> usize {
    let racks: usize = game
        .player_nums()
        .into_iter()
        .map(|p| game.player(p).rack().len())
        .sum();
    let board = (0..225)
        .filter(|&i| game.board().at(Pos::from_usize(i)).is_some())
        .count();
    game.letter_bag_len() + racks + board
}

fn mover(game: &Game) -> PlayerNum {
    game.to_play().expect("game is ongoing")
}

#[test]
fn new_game_deals_full_racks() {
    let game = Game::new(3);
    assert_eq!(game.player_count(), 3);
    assert_eq!(game.letter_bag_len(), 100 - 21);
    for p in game.player_nums() {
        assert_eq!(game.player(p).rack().len(), 7);
        assert_eq!(game.player(p).score(), 0);
    }
    assert_eq!(game.to_play(), Some(PlayerNum::first()));
    assert_eq!(tiles_in_game(&game), 100);
}

#[test]
fn pass_moves_the_turn_on() {
    let fsm = dictionary();
    let mut game = Game::new(2);
    assert_eq!(game.make_play(&Play::Pass, &fsm), Ok(()));
    assert_eq!(usize::from(mover(&game)), 1);
    assert_eq!(game.make_play(&Play::Pass, &fsm), Ok(()));
    assert_eq!(usize::from(mover(&game)), 0);
    assert_eq!(tiles_in_game(&game), 100);
}

#[test]
fn second_pass_in_a_row_ends_the_game() {
    let fsm = dictionary();
    let mut game = Game::new(2);
    // Each player passes once; then the first player's second pass in a
    // row ends the game.
    for _ in 0..2 {
        assert_eq!(game.make_play(&Play::Pass, &fsm), Ok(()));
        assert!(!game.status().is_over());
    }
    assert_eq!(game.make_play(&Play::Pass, &fsm), Ok(()));
    match game.status() {
        GameStatus::Over(over) => {
            assert_eq!(over.reason(), GameOverReason::TwoPasses);
            assert_eq!(over.final_scores().len(), 2);
        },
        GameStatus::ToPlay(_) => panic!("the game should be over"),
    }
    assert_eq!(game.to_play(), None);
    assert_eq!(game.make_play(&Play::Pass, &fsm), Err(GameError::Over));
}

#[test]
fn redraw_keeps_every_tile() {
    let fsm = dictionary();
    let mut game = Game::new(2);
    let p = mover(&game);
    let tile = game.player(p).rack().iter()[0];
    assert_eq!(game.make_play(&Play::Redraw(vec![tile]), &fsm), Ok(()));
    assert_eq!(game.player(p).rack().len(), 7);
    assert_eq!(game.letter_bag_len(), 100 - 14);
    assert_eq!(tiles_in_game(&game), 100);
}

#[test]
fn refused_redraws() {
    let fsm = dictionary();
    let mut game = Game::new(2);
    let p = mover(&game);
    assert_eq!(game.make_play(&Play::Redraw(vec![]), &fsm), Err(GameError::RedrawCount));
    let rack = game.player(p).rack().iter();
    let missing = Tile::iter()
        .into_iter()
        .find(|t| !rack.contains(t))
        .expect("a rack of seven misses some tile");
    assert_eq!(game.make_play(&Play::Redraw(vec![missing]), &fsm), Err(GameError::NotInRack));
    // Nothing changed: still the first player's turn, with the same rack.
    assert_eq!(mover(&game), p);
    assert_eq!(game.player(p).rack().iter(), rack);
    assert_eq!(tiles_in_game(&game), 100);
}

#[test]
fn refused_placements() {
    let fsm = dictionary();
    let mut game = Game::new(2);
    let p = mover(&game);
    assert_eq!(game.make_play(&Play::Place(vec![]), &fsm), Err(GameError::PlacementCount));
    let rack = game.player(p).rack().iter();
    let missing = Tile::iter()
        .into_iter()
        .find(|t| !rack.contains(t))
        .expect("a rack of seven misses some tile");
    let play = Play::Place(vec![(Pos::start(), missing)]);
    assert_eq!(game.make_play(&play, &fsm), Err(GameError::NotInRack));
    assert_eq!(mover(&game), p);
    assert_eq!(tiles_in_game(&game), 100);
}

#[test]
fn error_messages() {
    assert_eq!(GameError::NotConnected.message(), "Not connected");
    assert_eq!(GameError::Over.message(), "The game is over so no futher plays can be made");
}

#[test]
fn player_numbers_cycle() {
    let p = PlayerNum::from(2);
    assert_eq!(usize::from(p), 2);
    assert_eq!(usize::from(p.next(3)), 0);
    assert_eq!(usize::from(PlayerNum::first().next(3)), 1);
}

#[test]
fn letters_round_trip_through_chars() {
    for l in Letter::iter() {
        assert_eq!(Letter::new(l.to_char()), Some(l));
        assert_eq!(Letter::new(l.to_char().to_ascii_lowercase()), Some(l));
    }
    assert_eq!(Letter::new('?'), None);
}

#[test]
fn winners_and_losers_share_out_the_final_scores() {
    let fsm = dictionary();
    let mut game = Game::new(3);
    for _ in 0..4 {
        assert_eq!(game.make_play(&Play::Pass, &fsm), Ok(()));
    }
    match game.status() {
        GameStatus::Over(over) => {
            let all = over.final_scores();
            let winners = over.winners();
            let losers = over.losers();
            assert_eq!(winners.len() + losers.len(), all.len());
            for pair in all.iter() {
                let in_winners = winners.iter().filter(|w| *w == pair).count();
                let in_losers = losers.iter().filter(|l| *l == pair).count();
                assert_eq!(in_winners + in_losers, 1);
                if in_winners == 1 {
                    assert_eq!(pair.1, over.max_score());
                } else {
                    assert!(pair.1 < over.max_score());
                }
            }
        },
        GameStatus::ToPlay(_) => panic!("the game should be over"),
    }
}
