use stratego::bitboard::count_ones;
use stratego::stratego::{
    between_squares, chebyshev, flip_bb, orthogonal, ranged, Flag, Move, MoveList, MoveStack,
    Piece, Position, StrategoState,
};
use stratego::stratego::util::Zobrist;

const START: &str = "d2f4/bbg4c/1m3dsc/8/8/BD3M1G/F5SD/1BCC4 r";

#[test]
fn flip_bb_mirrors_ranks() {
    assert_eq!(flip_bb(1), 1u64 << 56);
    assert_eq!(flip_bb(0xFF), 0xFFu64 << 56);
    assert_eq!(flip_bb(1u64 << 9), 1u64 << 49);
    let x: u64 = 0x0123_4567_89AB_CDEF;
    assert_eq!(flip_bb(flip_bb(x)), x);
    assert_eq!(flip_bb(x), 0xEFCD_AB89_6745_2301);
}

#[test]
fn orthogonal_and_chebyshev_neighbours() {
    assert_eq!(orthogonal(0), 0x102);
    assert_eq!(orthogonal(9), 0x20502);
    assert_eq!(orthogonal(63), (1u64 << 62) | (1u64 << 55));
    assert_eq!(chebyshev(0), 0x302);
    assert_eq!(chebyshev(9), 0x70507);
}

#[test]
fn ranged_stops_at_blockers() {
    assert_eq!(ranged(0, 0), 0x0101_0101_0101_01FE);
    assert_eq!(ranged(0, 1u64 << 3), 0x0101_0101_0101_010E);
    // a blocker on the file is reached, nothing behind it
    assert_eq!(ranged(0, 1u64 << 16), 0xFE | (1u64 << 8) | (1u64 << 16));
}

#[test]
fn between_squares_on_file_and_rank() {
    assert_eq!(between_squares(0, 24), 0x0101_0101);
    assert_eq!(between_squares(24, 0), 0x0101_0101);
    assert_eq!(between_squares(2, 5), 0x3C);
    assert_eq!(between_squares(5, 2), 0x3C);
}

#[test]
fn count_ones_counts_bits() {
    assert_eq!(count_ones(0), 0);
    assert_eq!(count_ones(u64::MAX), 64);
    assert_eq!(count_ones(0x0101_0101_0101_01FE), 14);
}

#[test]
fn zobrist_keys_from_xorshift() {
    assert_eq!(Zobrist::get(0, 0, Piece::FLAG), 591679071752537765);
    assert_eq!(Zobrist::get(1, 63, Piece::BOMB), 6598021254728206518);
}

#[test]
fn move_notation() {
    let quiet = Move { from: 8, to: 16, flag: Flag::QUIET, piece: Piece::SCOUT as u8 };
    assert_eq!(quiet.to_string(), "a2a3");
    let capture = Move { from: 25, to: 33, flag: Flag::CAPTURE, piece: Piece::MARSHAL as u8 };
    assert_eq!(capture.to_string(), "b4b5x10");
    let bomb = Move { from: 63, to: 62, flag: Flag::CAPTURE, piece: Piece::MINER as u8 };
    assert_eq!(bomb.to_string(), "h8g8x3");
    assert_eq!(Piece::rank(Piece::SPY), "1");
    assert_eq!(Piece::rank(Piece::BOMB), "b");
}

#[test]
fn move_list_push_and_get() {
    let mut list = MoveList::default();
    assert_eq!(list.len(), 0);
    list.push(1, 2, Flag::QUIET, 4);
    list.push(3, 4, Flag::CAPTURE, 7);
    assert_eq!(list.len(), 2);
    assert_eq!(list.get(1), Move { from: 3, to: 4, flag: Flag::CAPTURE, piece: 7 });
    assert_eq!(list.iter().count(), 2);
}

#[test]
fn move_stack_repetition() {
    let mut stack = MoveStack::default();
    for h in 0..7u64 {
        stack.push(h);
    }
    // hashes 0..=6, the newest last; odd distances back are 5, 3, 1
    assert!(stack.repetition(10, 5));
    assert!(stack.repetition(10, 3));
    assert!(!stack.repetition(10, 4));
    assert!(!stack.repetition(2, 3));
    stack.pop();
    assert!(!stack.repetition(10, 4));
    assert_eq!(stack.iter().count(), 6);
}

#[test]
fn position_from_notation() {
    let pos = Position::from(START);
    assert!(!pos.stm());
    assert!(!pos.game_over());
    assert_eq!(pos.half(), 0);
    assert_eq!(pos.piece(56), Piece::MINER);
    assert_eq!(pos.piece(59), Piece::FLAG);
    assert_eq!(pos.piece(3), Piece::SCOUT);
    assert_eq!(pos.piece(8), Piece::FLAG);
    assert_eq!(pos.piece(30), usize::MAX);
    assert_eq!(count_ones(pos.get(0)), 10);
    assert_eq!(count_ones(pos.get(1)), 10);
    assert_eq!(pos.get(1) & (1u64 << 59), 1u64 << 59);
    assert!(Position::try_from("zz r").is_none());
    assert!(Position::try_from(START).is_some());
}

#[test]
fn toggle_twice_restores() {
    let mut pos = Position::from(START);
    let hash = pos.hash();
    pos.toggle(0, Piece::GENERAL, 30);
    assert_eq!(pos.piece(30), Piece::GENERAL);
    assert_ne!(pos.hash(), hash);
    pos.toggle(0, Piece::GENERAL, 30);
    assert_eq!(pos.piece(30), usize::MAX);
    assert_eq!(pos.hash(), hash);
}

#[test]
fn gen_start_position() {
    let state = StrategoState::from(START);
    let moves = state.gen();
    assert_eq!(moves.len(), 25);
    let capture = Move { from: 3, to: 59, flag: Flag::CAPTURE, piece: Piece::SCOUT as u8 };
    assert!(moves.iter().any(|m| *m == capture));
    // nothing steps into a lake
    assert!(moves.iter().all(|m| (1u64 << m.to) & Position::LAKES == 0));
    assert_eq!(moves.iter().filter(|m| m.flag == Flag::CAPTURE).count(), 1);
}

#[test]
fn capturing_the_flag_wins() {
    let mut state = StrategoState::from(START);
    let capture = Move { from: 3, to: 59, flag: Flag::CAPTURE, piece: Piece::SCOUT as u8 };
    state.make(capture);
    assert!(state.game_over());
    assert!(state.stm());
    assert_eq!(state.board().piece(59), Piece::SCOUT);
    assert_eq!(state.gen().len(), 0);
}

#[test]
fn quiet_move_updates_board() {
    let mut state = StrategoState::from(START);
    let hash = state.hash();
    let mov = Move { from: 17, to: 25, flag: Flag::QUIET, piece: Piece::MINER as u8 };
    state.make(mov);
    let board = state.board();
    assert_eq!(board.piece(17), usize::MAX);
    assert_eq!(board.piece(25), Piece::MINER);
    assert_eq!(board.half(), 1);
    assert!(state.stm());
    assert_ne!(state.hash(), hash);
}

#[test]
fn position_text_and_notation() {
    let pos = Position::from(START);
    let expected = "+---+---+---+---+---+---+---+---+\n| d |   |   | f |   |   |   |   | 8\n+---+---+---+---+---+---+---+---+\n| b | b | g |   |   |   |   | c | 7\n+---+---+---+---+---+---+---+---+\n|   | m |   |   |   | d | s | c | 6\n+---+---+---+---+---+---+---+---+\n|   |   | ~ |   |   | ~ |   |   | 5\n+---+---+---+---+---+---+---+---+\n|   |   | ~ |   |   | ~ |   |   | 4\n+---+---+---+---+---+---+---+---+\n| B | D |   |   |   | M |   | G | 3\n+---+---+---+---+---+---+---+---+\n| F |   |   |   |   |   | S | D | 2\n+---+---+---+---+---+---+---+---+\n|   | B | C | C |   |   |   |   | 1\n+---+---+---+---+---+---+---+---+\n  a   b   c   d   e   f   g   h\n\nNotation: d2f4/bbg4c/1m3dsc/8/8/BD3M1G/F5SD/1BCC4 r";
    assert_eq!(pos.to_string(), expected);
    let state = StrategoState::from(START);
    assert_eq!(state.to_string(), expected);
    // the notation at the end reads back as the same board
    let text = pos.to_string();
    let notation = text.split("Notation: ").nth(1).unwrap();
    let again = Position::from(notation);
    for i in 0..10 {
        assert_eq!(again.get(i), pos.get(i));
    }
    assert_eq!(again.stm(), pos.stm());
}

#[test]
fn notation_after_a_move() {
    let mut state = StrategoState::from(START);
    state.make(Move { from: 17, to: 25, flag: Flag::QUIET, piece: Piece::MINER as u8 });
    let text = state.to_string();
    assert!(text.ends_with("Notation: d2f4/bbg4c/1m3dsc/8/1D6/B4M1G/F5SD/1BCC4 b"));
}

#[test]
fn attacks_are_symmetric() {
    let occ: u64 = 0x0042_1800_2400_8100;
    for a in 0..64usize {
        for b in 0..64usize {
            let ab = ranged(a, occ) & (1u64 << b) != 0;
            let ba = ranged(b, occ) & (1u64 << a) != 0;
            assert_eq!(ab, ba, "{} {}", a, b);
            assert_eq!(orthogonal(a) & (1u64 << b) != 0, orthogonal(b) & (1u64 << a) != 0);
            assert_eq!(chebyshev(a) & (1u64 << b) != 0, chebyshev(b) & (1u64 << a) != 0);
            assert_eq!(between_squares(a as u8, b as u8), between_squares(b as u8, a as u8));
        }
    }
}

#[test]
fn generated_moves_are_written_differently() {
    let mut state = StrategoState::from(START);
    for _ in 0..3 {
        let moves = state.gen();
        let mut written: Vec<String> = moves.iter().map(|m| m.to_string()).collect();
        written.sort();
        written.dedup();
        assert_eq!(written.len(), moves.len());
        let first = moves.get(0);
        state.make(first);
    }
}

#[test]
fn spy_takes_the_marshal() {
    // red spy on a1, blue marshal on a2, flags on a8 and h1
    let mut pos = Position::from("f7/8/8/8/8/8/m7/S6F r");
    let mov = Move { from: 0, to: 8, flag: Flag::CAPTURE, piece: Piece::SPY as u8 };
    pos.make(&mov);
    assert_eq!(pos.piece(8), Piece::SPY);
    assert_eq!(pos.get(Piece::MARSHAL), 0);
    assert_eq!(pos.get(1), 1u64 << 56);
    assert_eq!(pos.game_state(), stratego::stratego::GameState::Win);
}

#[test]
fn scout_third_return_keeps_blockers() {
    let mut pos = Position::from("f7/8/8/8/8/8/1g6/C6F r");
    let moves = [
        Move { from: 0, to: 24, flag: Flag::QUIET, piece: Piece::SCOUT as u8 },
        Move { from: 9, to: 10, flag: Flag::QUIET, piece: Piece::GENERAL as u8 },
        Move { from: 24, to: 0, flag: Flag::QUIET, piece: Piece::SCOUT as u8 },
        Move { from: 10, to: 9, flag: Flag::QUIET, piece: Piece::GENERAL as u8 },
        Move { from: 0, to: 24, flag: Flag::QUIET, piece: Piece::SCOUT as u8 },
        Move { from: 9, to: 8, flag: Flag::QUIET, piece: Piece::GENERAL as u8 },
    ];
    for mov in moves.iter() {
        pos.make(mov);
    }
    let generated: Vec<Move> = pos.gen(&MoveStack::default()).iter().cloned().collect();
    assert_eq!(
        generated,
        vec![
            Move { from: 24, to: 25, flag: Flag::QUIET, piece: Piece::SCOUT as u8 },
            Move { from: 24, to: 32, flag: Flag::QUIET, piece: Piece::SCOUT as u8 },
            Move { from: 24, to: 40, flag: Flag::QUIET, piece: Piece::SCOUT as u8 },
            Move { from: 24, to: 48, flag: Flag::QUIET, piece: Piece::SCOUT as u8 },
            Move { from: 24, to: 56, flag: Flag::CAPTURE, piece: Piece::SCOUT as u8 },
        ]
    );
}

#[test]
fn hidden_state_can_be_determined() {
    let state = StrategoState::from(START);
    assert!(state.can_anonymize(1));
    let hidden = state.anonymize(1);
    assert_eq!(hidden.board().get(Piece::UNKNOWN), state.board().get(1));
    let again = hidden.anonymize(1);
    assert_eq!(again.board().get(Piece::UNKNOWN), hidden.board().get(Piece::UNKNOWN));
    assert_eq!(again.hash(), hidden.hash());
    let det = hidden.try_determination().expect("the pieces fit");
    assert_eq!(det.board().get(Piece::UNKNOWN), 0);
    assert_eq!(det.board().get(1), state.board().get(1));
    assert_eq!(count_ones(det.board().get(1) & det.board().get(Piece::SCOUT)), 2);
}

#[test]
fn flip_keeps_counts_and_operations() {
    let x = 0x0000_00ff_0f00_1234u64;
    let y = 0x1234_5678_9abc_def0u64;
    assert_eq!(count_ones(flip_bb(x)), count_ones(x));
    assert_eq!(flip_bb(x & y), flip_bb(x) & flip_bb(y));
    assert_eq!(flip_bb(x | y), flip_bb(x) | flip_bb(y));
}

#[test]
fn canonical_notation_prints_back() {
    for n in ["f7/8/8/8/8/8/8/D6F r", "d2f4/bbg4c/1m3dsc/8/8/BD3M1G/F5SD/1BCC4 b"] {
        let text = Position::from(n).to_string();
        assert!(text.ends_with(&format!("Notation: {}", n)) || text.trim_end().ends_with(&format!("Notation: {}", n)));
    }
}
