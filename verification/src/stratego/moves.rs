//! Moves, the list of generated moves and the stack of position hashes.
use crate::stratego::util::{Flag, Piece};
use crate::text::string_of;
use vstd::prelude::*;
use vstd::std_specs::iter::IteratorSpec;

verus! {

broadcast use vstd::std_specs::slice::group_slice_axioms;

/// A move of `piece` from square `from` to square `to`; `flag` holds the
/// bits of `Flag`.
#[derive(Copy, Clone, Default, PartialEq, Eq, Hash, Debug, Structural)]
pub struct Move {
    pub from: u8,
    pub to: u8,
    pub flag: u8,
    pub piece: u8,
}

/// The decimal digits of `n`.
pub open spec fn decimal(n: nat) -> Seq<char>
    decreases n,
{
    if n < 10 {
        seq![(n + '0' as nat) as char]
    } else {
        decimal(n / 10) + seq![((n % 10) + '0' as nat) as char]
    }
}

/// Name of a square: its file letter followed by its rank number.
pub open spec fn square_name(sq: u8) -> Seq<char> {
    seq![((sq % 8) + 'a' as nat) as char] + decimal((sq / 8) as nat + 1)
}

/// The name of a piece's rank as it is written after a capture.
pub open spec fn rank_name(piece: int) -> Seq<char> {
    if piece == Piece::SPY {
        seq!['1']
    } else if piece == Piece::SCOUT {
        seq!['2']
    } else if piece == Piece::MINER {
        seq!['3']
    } else if piece == Piece::GENERAL {
        seq!['9']
    } else if piece == Piece::MARSHAL {
        seq!['1', '0']
    } else if piece == Piece::BOMB {
        seq!['b']
    } else {
        seq!['f']
    }
}

/// Pieces whose rank has a name (all but `UNKNOWN`).
pub open spec fn named_piece(piece: int) -> bool {
    Piece::FLAG <= piece <= Piece::BOMB && piece != Piece::UNKNOWN
}

/// The notation of a move: both squares, and for a capture `x` and the rank
/// of the moved piece.
pub open spec fn move_notation(m: Move) -> Seq<char> {
    square_name(m.from) + square_name(m.to) + if m.flag & Flag::CAPTURE != 0 {
        seq!['x'] + rank_name(m.piece as int)
    } else {
        seq![]
    }
}

fn push_square(out: &mut Vec<char>, sq: u8)
    ensures
        final(out)@ == old(out)@ + square_name(sq),
{
    let file = sq & 7;
    proof {
        assert(sq >> 3 <= 31) by (bit_vector);
    }
    let rank = (sq >> 3) + 1;
    proof {
        assert(sq & 7 == sq % 8 && sq >> 3 == sq / 8) by (bit_vector);
    }
    out.push((file + 97) as char);
    if rank >= 10 {
        out.push(((rank / 10) + 48) as char);
    }
    out.push(((rank % 10) + 48) as char);
    proof {
        let r = (sq / 8) as nat + 1;
        assert(r == rank);
        if r >= 10 {
            assert(r / 10 < 10);
            assert(decimal(r / 10) == seq![((r / 10) + '0' as nat) as char]);
        }
        assert(final(out)@ =~= old(out)@ + square_name(sq));
    }
}

impl Piece {
    /// The name of a piece's rank.
    pub fn rank(piece: usize) -> (res: String)
        requires
            named_piece(piece as int),
        ensures
            res@ == rank_name(piece as int),
    {
        let mut out: Vec<char> = Vec::new();
        if piece == Piece::SPY {
            out.push('1');
        } else if piece == Piece::SCOUT {
            out.push('2');
        } else if piece == Piece::MINER {
            out.push('3');
        } else if piece == Piece::GENERAL {
            out.push('9');
        } else if piece == Piece::MARSHAL {
            out.push('1');
            out.push('0');
        } else if piece == Piece::BOMB {
            out.push('b');
        } else {
            out.push('f');
        }
        proof {
            assert(out@ =~= rank_name(piece as int));
        }
        string_of(&out)
    }
}

impl Move {
    /// The notation of the move, e.g. `a2a3` or `b4b5x3`.
    pub fn to_string(&self) -> (res: String)
        requires
            self.flag & Flag::CAPTURE != 0 ==> named_piece(self.piece as int),
        ensures
            res@ == move_notation(*self),
    {
        let mut out: Vec<char> = Vec::new();
        push_square(&mut out, self.from);
        push_square(&mut out, self.to);
        if (self.flag & Flag::CAPTURE) != 0 {
            out.push('x');
            let p = self.piece as usize;
            if p == Piece::SPY {
                out.push('1');
            } else if p == Piece::SCOUT {
                out.push('2');
            } else if p == Piece::MINER {
                out.push('3');
            } else if p == Piece::GENERAL {
                out.push('9');
            } else if p == Piece::MARSHAL {
                out.push('1');
                out.push('0');
            } else if p == Piece::BOMB {
                out.push('b');
            } else {
                out.push('f');
            }
        }
        proof {
            assert(out@ =~= move_notation(*self));
        }
        string_of(&out)
    }
}

/// The moves generated in a position, in order.
pub struct MoveList {
    moves: Vec<Move>,
}

impl View for MoveList {
    type V = Seq<Move>;

    closed spec fn view(&self) -> Seq<Move> {
        self.moves@
    }
}

impl Default for MoveList {
    fn default() -> (res: Self)
        ensures
            res@ == Seq::<Move>::empty(),
    {
        MoveList { moves: Vec::with_capacity(50) }
    }
}

impl MoveList {
    pub fn iter(&self) -> (it: std::slice::Iter<'_, Move>)
        ensures
            it.remaining() == self@.as_ref(),
            it.decrease() is Some,
            it.initial_value_relation(&it),
    {
        self.moves.iter()
    }

    pub fn len(&self) -> (res: usize)
        ensures
            res == self@.len(),
    {
        self.moves.len()
    }

    /// The move at `index` (indexing the list).
    pub fn get(&self, index: usize) -> (res: Move)
        requires
            index < self@.len(),
        ensures
            res == self@[index as int],
    {
        self.moves[index]
    }

    pub fn push(&mut self, from: u8, to: u8, flag: u8, piece: u8)
        ensures
            final(self)@ == old(self)@.push(Move { from, to, flag, piece }),
    {
        self.moves.push(Move { from, to, flag, piece });
    }
}

/// The hashes of the positions of a game, oldest first.
pub struct MoveStack {
    stack: Vec<u64>,
}

impl View for MoveStack {
    type V = Seq<u64>;

    closed spec fn view(&self) -> Seq<u64> {
        self.stack@
    }
}

/// `current` was the hash an odd number `k` of plies back, `k <= half`, when
/// the stack holds at least 7 hashes.
pub open spec fn repeats(stack: Seq<u64>, half: int, current: u64) -> bool {
    &&& stack.len() >= 7
    &&& exists|k: int|
        1 <= k <= half && k % 2 == 1 && k < stack.len() && #[trigger] stack[stack.len() - 1 - k]
            == current
}

impl Default for MoveStack {
    fn default() -> (res: Self)
        ensures
            res@ == Seq::<u64>::empty(),
    {
        MoveStack { stack: Vec::new() }
    }
}

impl Clone for MoveStack {
    fn clone(&self) -> (res: Self)
        ensures
            res@ == self@,
    {
        MoveStack { stack: self.stack.clone() }
    }
}

impl MoveStack {
    /// Whether moving to a position with hash `current` repeats one of the
    /// last `half` positions of the same side.
    pub fn repetition(&self, half: usize, current: u64) -> (res: bool)
        requires
            self@.len() >= 7 ==> half < usize::MAX,
        ensures
            res == repeats(self@, half as int, current),
    {
        if self.stack.len() < 7 {
            return false;
        }
        let len = self.stack.len();
        let mut k: usize = 1;
        while k <= half && k < len
            invariant
                len == self@.len(),
                len >= 7,
                k % 2 == 1,
                1 <= k,
                forall|j: int|
                    1 <= j < k && j % 2 == 1 && j <= half && j < len ==> #[trigger] self@[len - 1 - j]
                        != current,
            decreases len + 2 - k,
        {
            if self.stack[len - 1 - k] == current {
                return true;
            }
            k += 2;
        }
        proof {
            if repeats(self@, half as int, current) {
                let j = choose|j: int|
                    1 <= j <= half && j % 2 == 1 && j < self@.len() && #[trigger] self@[self@.len()
                        - 1 - j] == current;
                assert(j < k);
            }
        }
        false
    }

    pub fn iter(&self) -> (it: std::slice::Iter<'_, u64>)
        ensures
            it.remaining() == self@.as_ref(),
            it.decrease() is Some,
            it.initial_value_relation(&it),
    {
        self.stack.iter()
    }

    pub fn push(&mut self, hash: u64)
        ensures
            final(self)@ == old(self)@.push(hash),
    {
        self.stack.push(hash);
    }

    pub fn pop(&mut self)
        ensures
            final(self)@ == if old(self)@.len() > 0 {
                old(self)@.drop_last()
            } else {
                old(self)@
            },
    {
        self.stack.pop();
    }
}

/// Pushing a hash and popping it again leaves the stack as it was.
pub proof fn lemma_push_pop(stack: Seq<u64>, hash: u64)
    ensures
        stack.push(hash).drop_last() == stack,
{
    assert(stack.push(hash).drop_last() =~= stack);
}

/// The last move of a side, for the two-squares rule: how often it moved back
/// and forth, the squares of its last move, and the path a scout took.
#[derive(Clone, Copy, PartialEq, Eq, Structural)]
pub struct SquareMask {
    pub moves: u8,
    pub from: u8,
    pub to: u8,
    pub path: u64,
}

impl Default for SquareMask {
    fn default() -> (res: Self)
        ensures
            res == (SquareMask { moves: 0, from: u8::MAX, to: u8::MAX, path: 0 }),
    {
        SquareMask { moves: 0, from: u8::MAX, to: u8::MAX, path: 0 }
    }
}

} // verus!
