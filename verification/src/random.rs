//! Players that choose at random: a random deployment and a random legal
//! move.
use crate::deployment::{drawn_deployment, notation, random_cells, red_pieces};
use crate::rng::choose_move;
use crate::stratego::position::{can_gen, legal};
use crate::stratego::{Move, MoveStack, Position, StrategoState};
use vstd::prelude::*;

verus! {

/// A legal move of the state, drawn at random. The side to move must have a
/// legal move.
pub fn random_move(state: &StrategoState) -> (res: Move)
    requires
        can_gen(state@.board),
        exists|m: Move| legal(state@.board, state@.stack, m),
    ensures
        legal(state@.board, state@.stack, res),
{
    let moves = state.gen();
    let m = choose_move(&moves);
    match m {
        Some(mov) => mov,
        None => {
            proof {
                let w = choose|m: Move| legal(state@.board, state@.stack, m);
                assert(moves@.contains(w));
            }
            Move { from: 0, to: 0, flag: 0, piece: 0 }
        },
    }
}

/// The player that deploys red's pieces on random squares and plays a random
/// legal move.
pub struct Random {}

impl Default for Random {
    fn default() -> (res: Self)
        ensures
            res == (Random {}),
    {
        Random {}
    }
}

impl Random {
    /// A random deployment of red: the ten pieces on random squares of the
    /// first three ranks.
    pub fn handle_deployment(&self, _args: Vec<&str>) -> (res: String)
        ensures
            drawn_deployment(res@, red_pieces()),
    {
        let pieces: Vec<char> = vec!['F', 'S', 'C', 'C', 'D', 'D', 'G', 'M', 'B', 'B'];
        proof {
            assert(pieces@ =~= red_pieces());
        }
        let cells = random_cells(&pieces);
        notation(&cells)
    }

    /// A legal move of the position, drawn at random. The side to move must
    /// have a legal move.
    pub fn handle_go(&mut self, _args: Vec<&str>, pos: &Position, stack: &MoveStack) -> (res: Move)
        requires
            can_gen(pos@),
            exists|m: Move| legal(pos@, stack@, m),
        ensures
            legal(pos@, stack@, res),
    {
        let moves = pos.gen(stack);
        match choose_move(&moves) {
            Some(mov) => mov,
            None => {
                proof {
                    let w = choose|m: Move| legal(pos@, stack@, m);
                    assert(moves@.contains(w));
                }
                Move { from: 0, to: 0, flag: 0, piece: 0 }
            },
        }
    }
}

} // verus!
