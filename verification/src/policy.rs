//! The move ordering of the playout policy: which of the five classes of
//! weights a move falls in.
use crate::bitboard::{bit, group_bits};
use crate::stratego::position::{battle, made, piece_at, side, toggled, PositionView};
use crate::stratego::{Flag, Move, Piece, StrategoState};
use vstd::prelude::*;

verus! {

broadcast use group_bits;

/// The weight class of a move: `0` a quiet move, `4` a capture of the flag,
/// `3` a capture of a lower piece (or of the marshal by the spy, or of a bomb
/// by a miner), `2` of an equal piece, `1` of a higher piece.
pub open spec fn weight_class(p: PositionView, m: Move) -> int {
    let other = piece_at(p.bb, m.to as int);
    let piece = m.piece as int;
    if m.flag & Flag::CAPTURE == 0 {
        0
    } else if other == Piece::FLAG {
        4
    } else if (piece == Piece::SPY && other == Piece::MARSHAL) || (piece == Piece::MINER && other == Piece::BOMB) {
        3
    } else if piece < other {
        1
    } else if piece == other {
        2
    } else {
        3
    }
}

/// The index of the weight that the ordered policy gives `mov` (see
/// `weight_class`).
pub fn weight_index(pos: &StrategoState, mov: &Move) -> (res: usize)
    requires
        mov.flag & Flag::CAPTURE != 0 ==> mov.to < 64,
    ensures
        res == weight_class(pos@.board, *mov),
{
    if (mov.flag & Flag::CAPTURE) == 0 {
        return 0;
    }
    let other = pos.board().piece(mov.to);
    if other == Piece::FLAG {
        return 4;
    }
    let piece = mov.piece as usize;
    if (piece == Piece::SPY && other == Piece::MARSHAL) || (piece == Piece::MINER && other == Piece::BOMB) {
        3
    } else if piece < other {
        1
    } else if piece == other {
        2
    } else {
        3
    }
}

proof fn lemma_toggled_at(p: PositionView, stm: int, piece: int, sq: int, i: int)
    requires
        0 <= sq < 64,
        p.bb.len() == 10,
        0 <= i < 10,
        0 <= stm < 10,
        0 <= piece < 10,
        stm != piece,
    ensures
        bit(toggled(p, stm, piece, sq).bb[i], sq) == if i == stm || i == piece {
            !bit(p.bb[i], sq)
        } else {
            bit(p.bb[i], sq)
        },
        toggled(p, stm, piece, sq).bb.len() == 10,
{
    assert(bit(1u64 << (sq as u64), sq));
}

/// The weight class of a capture tells what `make` does on the target
/// square: with class `3` or `4` the attacker stands there afterwards, with
/// `2` both pieces are gone, with `1` the defender stays, for every capture
/// of a piece of the opponent.
pub proof fn lemma_weight_class_predicts_capture(p: PositionView, m: Move)
    requires
        p.bb.len() == 10,
        m.flag & Flag::CAPTURE != 0,
        m.from < 64,
        m.to < 64,
        m.from != m.to,
        Piece::SPY <= m.piece <= Piece::MARSHAL,
        bit(p.bb[1 - side(p.stm)], m.to as int),
        !bit(p.bb[side(p.stm)], m.to as int),
        piece_at(p.bb, m.to as int) < 10,
    ensures
        ({
            let q = made(p, m);
            let us = bit(q.bb[side(p.stm)], m.to as int);
            let them = bit(q.bb[1 - side(p.stm)], m.to as int);
            &&& weight_class(p, m) >= 3 <==> us && !them
            &&& weight_class(p, m) == 2 <==> !us && !them
            &&& weight_class(p, m) == 1 <==> !us && them
        }),
{
    let stm = side(p.stm);
    let piece = m.piece as int;
    let from = m.from as int;
    let to = m.to as int;
    crate::stratego::position::lemma_piece_from_range(p.bb, to, 2);
    let other = piece_at(p.bb, to);
    let p1 = PositionView {
        stm: !p.stm,
        last: p.last.update(stm, crate::stratego::position::next_last(p.last[stm], m)),
        attacks: crate::stratego::attacks::orth_bb(m.to as int),
        evading: p.evading.update(stm, m.flag & Flag::EVADING != 0),
        ..p
    };
    let moved = if bit(p.bb[Piece::UNKNOWN as int], from) {
        Piece::UNKNOWN as int
    } else {
        piece
    };
    let p2 = toggled(p1, stm, moved, from);
    assert forall|i: int| 0 <= i < 10 implies bit(p2.bb[i], to) == bit(p.bb[i], to) by {
        crate::stratego::lemma_toggled_other(p1, stm, moved, from, to, i);
    }
    let p3 = PositionView { half: 0, attacker: m.piece, ..p2 };
    crate::stratego::lemma_piece_at_same(p3.bb, p.bb, to);
    assert(piece_at(p3.bb, to) == other);
    if battle(piece, other) > 0 {
        let t1 = toggled(p3, stm, piece, to);
        lemma_toggled_at(p3, stm, piece, to, stm);
        lemma_toggled_at(p3, stm, piece, to, 1 - stm);
        lemma_toggled_at(t1, 1 - stm, other, to, stm);
        lemma_toggled_at(t1, 1 - stm, other, to, 1 - stm);
    } else if battle(piece, other) == 0 {
        lemma_toggled_at(p3, 1 - stm, other, to, stm);
        lemma_toggled_at(p3, 1 - stm, other, to, 1 - stm);
    }
}

} // verus!
