use stratego::perft::perft;
use stratego::stratego::{Flag, GameState, Move, Piece, Position, StrategoState};
use stratego::tournament::rating::Reward;
use stratego::tournament::referee::{game_rewards, play_text, referee_apply, referee_check, referee_view};

const START: &str = "d2f4/bbg4c/1m3dsc/8/8/BD3M1G/F5SD/1BCC4 r";

#[test]
fn start_checks_the_board() {
    assert!(StrategoState::start(START).is_some());
    // two pieces on one square: the notation runs past the end of a rank
    assert!(Position::try_from("d7/8F/8/8/8/8/8/8 r").is_some());
    assert!(StrategoState::start("d7/8F/8/8/8/8/8/8 r").is_none());
    assert!(StrategoState::start("zz r").is_none());
    assert!(Position::from(START).well_formed());
    let mut pos = Position::from(START);
    pos.toggle(1, Piece::MINER, 0);
    assert!(pos.well_formed());
    pos.toggle(1, Piece::MINER, 1);
    assert!(!pos.well_formed());
}

#[test]
fn within_limits_at_start() {
    let state = StrategoState::start(START).unwrap();
    assert!(state.within_limits());
    let board = state.board();
    assert_eq!(board.last(0).moves, 0);
    assert_eq!(board.last(1).from, u8::MAX);
}

#[test]
fn perft_counts_move_sequences() {
    let state = StrategoState::start(START).unwrap();
    assert_eq!(perft(state.clone(), 0), 1);
    assert_eq!(perft(state.clone(), 1), 25);
    let moves = state.gen();
    let mut expected = 0;
    for m in moves.iter() {
        let mut child = state.clone();
        child.make(*m);
        expected += child.gen().len();
    }
    assert_eq!(perft(state.clone(), 2), expected);
    let mut third = 0;
    for m in moves.iter() {
        let mut child = state.clone();
        child.make(*m);
        third += perft(child, 2);
    }
    assert_eq!(perft(state, 3), third);
}

#[test]
fn referee_plays_a_game_to_its_end() {
    let mut pos = StrategoState::start(START).unwrap();
    assert!(referee_check(&mut pos, 0, 10));
    // a move that is not legal is refused
    let wrong = Move { from: 0, to: 63, flag: Flag::QUIET, piece: Piece::SCOUT as u8 };
    assert!(!referee_apply(&mut pos, wrong));
    assert!(!pos.stm());
    // the flag capture, written with the evading flag bit does not matter
    let capture = Move { from: 3, to: 59, flag: Flag::CAPTURE, piece: Piece::SCOUT as u8 };
    assert!(referee_apply(&mut pos, capture));
    assert!(pos.game_over());
    assert!(!referee_check(&mut pos, 1, 10));
    // red took blue's flag: red wins
    assert_eq!(game_rewards(&pos, 1), (Reward::Win, Reward::Loss));
}

#[test]
fn referee_draws_long_games() {
    let mut pos = StrategoState::start(START).unwrap();
    assert!(!referee_check(&mut pos, 11, 10));
    assert_eq!(pos.game_state(), GameState::Draw);
    assert_eq!(game_rewards(&pos, 0), (Reward::Draw, Reward::Draw));
}

#[test]
fn referee_view_hides_the_opponent() {
    let pos = StrategoState::start(START).unwrap();
    let red = referee_view(&pos, 0, false);
    assert_eq!(red.board().get(Piece::UNKNOWN), pos.board().get(1));
    let cheat = referee_view(&pos, 0, true);
    assert_eq!(cheat.board().get(Piece::UNKNOWN), 0);
    let quiet = Move { from: 17, to: 25, flag: Flag::QUIET, piece: Piece::MINER as u8 };
    let mut pos2 = pos.clone();
    assert!(referee_apply(&mut pos2, quiet));
    assert!(pos2.stm());
}

#[test]
fn losing_without_moves() {
    // blue has only its flag and bombs: no move
    let mut pos = StrategoState::start("fb6/8/8/8/8/8/8/G7 b").unwrap();
    assert!(!referee_check(&mut pos, 0, 10));
    assert_eq!(pos.game_state(), GameState::Win);
    assert_eq!(game_rewards(&pos, 1), (Reward::Win, Reward::Loss));
}

#[test]
fn play_written_moves() {
    let mut pos = StrategoState::start(START).unwrap();
    assert_eq!(play_text(&mut pos, "b3b4"), Some(String::new()));
    assert!(pos.stm());
    assert_eq!(pos.board().piece(25), Piece::MINER);
    // not a move of blue
    assert_eq!(play_text(&mut pos, "d1d2"), None);
    assert!(pos.stm());
    assert_eq!(play_text(&mut pos, "h7h6"), None);
    assert_eq!(play_text(&mut pos, "h7g7"), Some(String::new()));
    let mut lost = pos.clone();
    assert_eq!(play_text(&mut pos, "d1d8x2"), Some("fx".to_string()));
    assert!(pos.game_over());
    // the scout attacks the general and is removed
    assert_eq!(play_text(&mut lost, "c1c2"), Some(String::new()));
    assert_eq!(play_text(&mut lost, "c7d7"), Some(String::new()));
    assert_eq!(play_text(&mut lost, "d1d7x2"), Some("9x".to_string()));
    assert_eq!(lost.board().piece(3), usize::MAX);
    assert_eq!(lost.board().piece(51), Piece::GENERAL);
}
