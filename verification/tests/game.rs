use stratego::bitboard::count_ones;
use stratego::policy::weight_index;
use stratego::random::{random_move, Random};
use stratego::stratego::information::InformationSet;
use stratego::stratego::{Flag, GameState, Move, MoveStack, Piece, Position, StrategoState};
use stratego::value::game_result;

const START: &str = "d2f4/bbg4c/1m3dsc/8/8/BD3M1G/F5SD/1BCC4 r";

#[test]
fn information_starts_unknown() {
    let board = Position::from(START);
    let info = InformationSet::from(&board);
    assert_eq!(info.get(0), board.get(0));
    assert_eq!(info.get(1), board.get(1));
    assert_eq!(info.initial(1), board.get(1));
    assert_eq!(info.available(0), vec![3, 4, 4, 5, 5, 6, 7]);
    assert_eq!(info.available_immovable(1), vec![2, 9, 9]);
}

#[test]
fn information_reveals_scout_and_captures() {
    let board = Position::from(START);
    let mut info = InformationSet::from(&board);
    // the scout slides from d1 to d5: it is revealed as a scout
    let slide = Move { from: 3, to: 35, flag: Flag::QUIET, piece: Piece::SCOUT as u8 };
    info.update(&slide, &board);
    assert_eq!(info.get(0) & (1u64 << 3), 0);
    assert_eq!(info.get(0) & (1u64 << 35), 0);
    assert_eq!(info.initial(0) & (1u64 << 3), 0);
    assert_eq!(info.available(0), vec![3, 4, 5, 5, 6, 7]);
    // a one-step move keeps the piece unknown on its new square
    let mut info2 = InformationSet::from(&board);
    let step = Move { from: 17, to: 25, flag: Flag::QUIET, piece: Piece::MINER as u8 };
    info2.update(&step, &board);
    assert_eq!(info2.get(0) & (1u64 << 25), 1u64 << 25);
    assert_eq!(info2.available(0), vec![3, 4, 4, 5, 5, 6, 7]);
    info2.remove(0, Piece::MINER, 25);
    assert_eq!(info2.available(0), vec![3, 4, 4, 5, 6, 7]);
}

#[test]
fn anonymize_hides_unknown_pieces() {
    let state = StrategoState::from(START);
    let hidden = state.anonymize(1);
    let board = hidden.board();
    assert_eq!(board.get(1), state.board().get(1));
    assert_eq!(board.get(Piece::UNKNOWN) & board.get(1), board.get(1));
    assert_eq!(count_ones(board.get(Piece::FLAG) & board.get(1)), 0);
    assert_eq!(board.get(0), state.board().get(0));
    assert_eq!(count_ones(board.get(Piece::FLAG) & board.get(0)), 1);
}

#[test]
fn determination_places_pieces_again() {
    let state = StrategoState::from(START);
    let hidden = state.anonymize(1);
    let det = hidden.determination();
    let board = det.board();
    assert_eq!(board.get(Piece::UNKNOWN), 0);
    assert_eq!(board.get(1), state.board().get(1));
    assert_eq!(count_ones(board.get(Piece::FLAG) & board.get(1)), 1);
    assert_eq!(count_ones(board.get(Piece::BOMB) & board.get(1)), 2);
    assert_eq!(count_ones(board.get(Piece::SCOUT) & board.get(1)), 2);
    // flags and bombs only where blue's pieces have not moved
    assert_eq!(board.get(0), state.board().get(0));
}

#[test]
fn features_mark_every_piece() {
    let state = StrategoState::from(START);
    let features = state.features(0);
    assert_eq!(features.len(), StrategoState::FEATURES);
    assert_eq!(features.iter().filter(|f| **f).count(), 20);
    let blue = state.features(1);
    assert_eq!(blue.iter().filter(|f| **f).count(), 20);
}

#[test]
fn weight_index_classes() {
    let state = StrategoState::from(START);
    let quiet = Move { from: 17, to: 25, flag: Flag::QUIET, piece: Piece::MINER as u8 };
    assert_eq!(weight_index(&state, &quiet), 0);
    let flag = Move { from: 3, to: 59, flag: Flag::CAPTURE, piece: Piece::SCOUT as u8 };
    assert_eq!(weight_index(&state, &flag), 4);
    // a scout on the marshal's square: higher piece
    let up = Move { from: 3, to: 41, flag: Flag::CAPTURE, piece: Piece::SCOUT as u8 };
    assert_eq!(weight_index(&state, &up), 1);
    let spy = Move { from: 3, to: 41, flag: Flag::CAPTURE, piece: Piece::SPY as u8 };
    assert_eq!(weight_index(&state, &spy), 3);
    let equal = Move { from: 3, to: 55, flag: Flag::CAPTURE, piece: Piece::SCOUT as u8 };
    assert_eq!(weight_index(&state, &equal), 2);
    let miner = Move { from: 3, to: 48, flag: Flag::CAPTURE, piece: Piece::MINER as u8 };
    assert_eq!(weight_index(&state, &miner), 3);
    let down = Move { from: 3, to: 55, flag: Flag::CAPTURE, piece: Piece::GENERAL as u8 };
    assert_eq!(weight_index(&state, &down), 3);
}

#[test]
fn game_result_values() {
    let mut state = StrategoState::from(START);
    let capture = Move { from: 3, to: 59, flag: Flag::CAPTURE, piece: Piece::SCOUT as u8 };
    state.make(capture);
    assert_eq!(state.game_state(), GameState::Win);
    // red took the flag: a win for red, a loss for blue
    assert_eq!(game_result(false, &state), 1);
    assert_eq!(game_result(true, &state), -1);
    state.set_game_state(GameState::Draw);
    assert_eq!(game_result(false, &state), 0);
    state.set_game_state(GameState::Loss);
    assert_eq!(game_result(false, &state), -1);
}

#[test]
fn random_move_is_generated() {
    let state = StrategoState::from(START);
    let moves = state.gen();
    for _ in 0..20 {
        let m = random_move(&state);
        assert!(moves.iter().any(|g| *g == m));
    }
}

#[test]
fn random_player() {
    let mut player = Random::default();
    let deployment = player.handle_deployment(vec![]);
    assert_eq!(deployment.matches('/').count(), 2);
    assert_eq!(deployment.chars().filter(|c| c.is_ascii_uppercase()).count(), 10);
    assert_eq!(deployment.chars().filter(|c| *c == 'B').count(), 2);
    let pos = Position::from(START);
    let stack = MoveStack::default();
    let moves = pos.gen(&stack);
    let m = player.handle_go(vec![], &pos, &stack);
    assert!(moves.iter().any(|g| *g == m));
}

#[test]
fn weight_class_tells_the_capture() {
    // red's scout on d4 faces blue's pieces along the d-file and the fourth rank
    let notation = "8/3m4/8/3s4/8/8/3C1d2/8 r";
    let state = StrategoState::from(notation);
    let moves = state.gen();
    let mut captures = 0;
    for m in moves.iter() {
        if m.flag & Flag::CAPTURE == 0 {
            continue;
        }
        captures += 1;
        let class = weight_index(&state, m);
        let mut after = state.clone();
        after.make(*m);
        let board = after.board();
        let us = board.get(0) & (1u64 << m.to) != 0;
        let them = board.get(1) & (1u64 << m.to) != 0;
        match class {
            3 | 4 => assert!(us && !them),
            2 => assert!(!us && !them),
            _ => assert!(!us && them),
        }
    }
    assert_eq!(captures, 2);
}
