//! The random choices of the library, drawn from `rand`'s thread-local generator.
use crate::stratego::{Move, MoveList};
use rand::seq::{IteratorRandom, SliceRandom};
use rand::Rng;
use vstd::prelude::*;

verus! {

/// `SliceRandom::shuffle` with `rand::rng()`: puts the items in a random
/// order; the same items stay, each as often as before.
#[verifier::external_body]
pub fn shuffle(v: &mut Vec<usize>)
    ensures
        final(v)@.to_multiset() == old(v)@.to_multiset(),
{
    v.shuffle(&mut rand::rng());
}

/// `Rng::random_range(..n)` with `rand::rng()`: a random number below `n`.
/// The range must not be empty.
#[verifier::external_body]
pub fn random_below(n: usize) -> (res: usize)
    requires
        n > 0,
    ensures
        res < n,
{
    rand::rng().random_range(..n)
}

/// `Rng::random::<bool>()` with `rand::rng()`: a random truth value.
#[verifier::external_body]
pub fn random_bool() -> bool {
    rand::rng().random::<bool>()
}

/// `IteratorRandom::choose` over the moves of a list with `rand::rng()`: one
/// of the moves, drawn at random; `None` exactly when the list is empty.
#[verifier::external_body]
pub fn choose_move(moves: &MoveList) -> (res: Option<Move>)
    ensures
        res is None <==> moves@.len() == 0,
        res matches Some(m) ==> moves@.contains(m),
{
    moves.iter().choose(&mut rand::rng()).copied()
}

} // verus!
