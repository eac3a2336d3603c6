//! Values of finished playouts.
use crate::random::random_move;
use crate::stratego::rules::{after_move, below_limits, consistent, lemma_consistent_can_gen, lemma_legal_can_make, lemma_make_keeps_consistent};
use crate::stratego::position::legal;
use crate::stratego::{GameState, Move, StrategoState};
use crate::tournament::referee::{has_move, with_state};
use vstd::prelude::*;

verus! {

/// The value of a finished game as a playout scores it for the side `stm`
/// that was to move when the playout started. The state is from the view of
/// the side that moved last; with `current` telling whether the side `stm`
/// is to move (so the other side moved last), a win counts `-1` when
/// `current` holds and `1` otherwise, a loss the other way round, a draw `0`.
pub open spec fn result_value(stm: bool, now: bool, state: GameState) -> int {
    let current = stm == now;
    match state {
        GameState::Win => if current {
            -1
        } else {
            1
        },
        GameState::Loss => if current {
            1
        } else {
            -1
        },
        _ => 0,
    }
}

/// The value of the finished game `state` for the side `stm` that was to
/// move when the playout started (see `result_value`).
pub fn game_result(stm: bool, state: &StrategoState) -> (res: i8)
    requires
        state@.board.state != GameState::Ongoing,
    ensures
        res == result_value(stm, state@.board.stm, state@.board.state),
{
    let current = stm == state.stm();
    match state.game_state() {
        GameState::Draw => 0,
        GameState::Win => if current {
            -1
        } else {
            1
        },
        GameState::Loss => if current {
            1
        } else {
            -1
        },
        GameState::Ongoing => 0,
    }
}

/// One move of a random playout: nothing once the game is over; a side
/// without a legal move loses (the two-squares and more-squares rules can
/// leave it none), so the game is won from the view of the side that moved
/// last; otherwise a legal move drawn at random is made. Whether
/// a move was made.
pub fn playout_step(pos: &mut StrategoState) -> (res: bool)
    requires
        consistent(old(pos)@),
        below_limits(old(pos)@.board),
    ensures
        consistent(final(pos)@),
        old(pos)@.board.state != GameState::Ongoing ==> !res && final(pos)@ == old(pos)@,
        old(pos)@.board.state == GameState::Ongoing && !has_move(old(pos)@) ==> !res && final(pos)@ == with_state(
            old(pos)@,
            GameState::Win,
        ),
        old(pos)@.board.state == GameState::Ongoing && has_move(old(pos)@) ==> res && exists|m: Move|
            legal(old(pos)@.board, old(pos)@.stack, m) && final(pos)@ == after_move(old(pos)@, m),
{
    if pos.game_over() {
        return false;
    }
    proof {
        lemma_consistent_can_gen(pos@);
    }
    let moves = pos.gen();
    if moves.len() == 0 {
        proof {
            assert forall|m: Move| !legal(old(pos)@.board, old(pos)@.stack, m) by {
                if legal(old(pos)@.board, old(pos)@.stack, m) {
                    assert(moves@.contains(m));
                }
            }
        }
        pos.set_game_state(GameState::Win);
        return false;
    }
    proof {
        assert(moves@.contains(moves@[0]));
    }
    let m = random_move(pos);
    proof {
        lemma_legal_can_make(pos@, m);
        lemma_make_keeps_consistent(pos@, m);
    }
    pos.make(m);
    true
}

} // verus!
