//! What a game keeps from move to move: a well formed board, records of the
//! last moves that agree with the board, and an information set that counts
//! the unknown pieces on the board. Under it every generated move can be
//! made, and making it keeps it.
use crate::bitboard::{bit, count_below, file_of, group_bits, lemma_popcount_squares, popcount, rank_of};
use crate::stratego::attacks::{between_bb, between_spec, lemma_attacks_symmetric, lemma_between_bits, orth_adjacent, rook_reach, strictly_between};
use crate::stratego::information::{
    after_defender, all_pieces, can_remove, can_update, initial_information, reveals_defender, square_distance,
    updated, InformationView,
};
use crate::stratego::moves::{Move, SquareMask};
use crate::stratego::position::{
    attack_bit, battle, can_gen, can_make, capture_target, empty_position, last_from_mask, legal, made,
    moves_back, next_last, occupied, piece_at, piece_from, quiet_target, read_board, read_notation,
    repeat_mask, side, toggled, lakes, PositionView,
};
use crate::stratego::drawing::lakes_free;
use crate::stratego::util::{Flag, Piece};
use crate::stratego::{Position, StrategoState, StrategoView};
use crate::bitboard::lemma_pop_lowest;
use vstd::prelude::*;

verus! {

broadcast use group_bits;

/// No square holds pieces of both sides, every square of a piece bitboard
/// belongs to a side, and every square of a side holds exactly one piece.
pub open spec fn board_wf(p: PositionView) -> bool {
    &&& p.bb.len() == 10
    &&& p.last.len() == 2
    &&& p.evading.len() == 2
    &&& forall|q: int| !(#[trigger] bit(p.bb[0], q) && bit(p.bb[1], q))
    &&& forall|k: int, q: int|
        2 <= k < 10 && #[trigger] bit(p.bb[k], q) ==> (bit(p.bb[0], q) || bit(p.bb[1], q)) && piece_at(p.bb, q) == k
    &&& forall|q: int|
        #![trigger bit(p.bb[0], q)]
        #![trigger bit(p.bb[1], q)]
        (bit(p.bb[0], q) || bit(p.bb[1], q)) ==> 2 <= piece_at(p.bb, q) < 10
}

/// The squares of a scout's path: the rank or file segment between two
/// different squares, both ends included.
pub open spec fn segment(path: u64) -> bool {
    exists|a: u8, b: u8|
        a < 64 && b < 64 && a != b && (rank_of(a as int) == rank_of(b as int) || file_of(a as int) == file_of(b as int))
            && path == #[trigger] between_bb(a, b)
}

/// The record of side `s`'s last move agrees with the board: no piece of the
/// side stands on its path but the one that moved; a piece other than a
/// scout that moved last has no path and stepped from a square next to it,
/// a scout has one; a path is a segment that holds both squares of the
/// move.
pub open spec fn last_wf(p: PositionView, s: int) -> bool {
    let l = p.last[s];
    &&& l.from < 64 || l.from == u8::MAX
    &&& forall|q: int| #[trigger] bit(p.bb[s], q) && bit(l.path, q) ==> q == l.to
    &&& (bit(p.bb[s], l.to as int) && piece_at(p.bb, l.to as int) != Piece::SCOUT) ==> (l.path == 0 && (l.from
        == u8::MAX || orth_adjacent(l.from as int, l.to as int)))
    &&& (bit(p.bb[s], l.to as int) && piece_at(p.bb, l.to as int) == Piece::SCOUT) ==> l.path != 0
    &&& l.path != 0 ==> (segment(l.path) && l.from < 64 && bit(l.path, l.from as int) && bit(l.path, l.to as int))
}

/// The information set agrees with the board: its squares hold pieces of
/// the side, and it counts for each rank the pieces of that rank on its
/// squares.
pub open spec fn info_wf(i: InformationView, p: PositionView) -> bool {
    &&& i.bb.len() == 2
    &&& i.initial.len() == 2
    &&& i.unknown.len() == 2
    &&& i.unknown[0].len() == 10
    &&& i.unknown[1].len() == 10
    &&& forall|s: int, q: int| 0 <= s < 2 && #[trigger] bit(i.bb[s], q) ==> bit(p.bb[s], q)
    &&& forall|s: int, k: int|
        0 <= s < 2 && 2 <= k < 10 ==> #[trigger] i.unknown[s][k] == popcount(i.bb[s] & p.bb[k])
}

/// The invariant of a game.
pub open spec fn consistent(g: StrategoView) -> bool {
    &&& board_wf(g.board)
    &&& last_wf(g.board, 0)
    &&& last_wf(g.board, 1)
    &&& info_wf(g.info, g.board)
}

/// The limits of the counters that a move raises: the plies since the last
/// capture and the back-and-forth moves of the side to move.
pub open spec fn below_limits(p: PositionView) -> bool {
    &&& p.half < u16::MAX
    &&& p.last[side(p.stm)].moves < u8::MAX
}

proof fn lemma_piece_from_bit(bb: Seq<u64>, q: int, i: int)
    requires
        2 <= i,
        piece_from(bb, q, i) < 10,
    ensures
        bit(bb[piece_from(bb, q, i)], q),
        i <= piece_from(bb, q, i),
    decreases 10 - i,
{
    if i < 10 && !bit(bb[i], q) {
        lemma_piece_from_bit(bb, q, i + 1);
    }
}

/// The piece bitboard that `piece_at` names holds the square.
pub proof fn lemma_piece_at_bit(bb: Seq<u64>, q: int)
    requires
        piece_at(bb, q) < 10,
    ensures
        bit(bb[piece_at(bb, q)], q),
        2 <= piece_at(bb, q),
{
    lemma_piece_from_bit(bb, q, 2);
}

proof fn lemma_popcount_pos(x: u64, q: int)
    requires
        bit(x, q),
    ensures
        popcount(x) >= 1,
    decreases x,
{
    if x % 2 == 0 {
        assert(x != 0) by {
            if x == 0 {
                assert(!bit(0u64, q));
            }
        }
        let h = x / 2;
        assert(q >= 1) by {
            if q == 0 {
                assert((x >> 0u64) & 1u64 == x % 2) by (bit_vector);
            }
        }
        let qq = q as u64;
        assert((x >> qq) & 1u64 == (h >> ((qq - 1) as u64)) & 1u64) by (bit_vector)
            requires
                1 <= qq < 64,
                h == x / 2,
        ;
        lemma_popcount_pos(h, q - 1);
    }
}

/// Under the invariant, a piece other than a scout moves to a square next
/// to it.
proof fn lemma_step_adjacent(g: StrategoView, m: Move)
    requires
        consistent(g),
        legal(g.board, g.stack, m),
        m.piece as int != Piece::SCOUT,
    ensures
        orth_adjacent(m.from as int, m.to as int),
{
    let p = g.board;
    let stm = side(p.stm);
    let l = p.last[stm];
    let from = m.from as int;
    let to = m.to as int;
    if !orth_adjacent(from, to) {
        assert(attack_bit(p, m.piece as int, from, to));
        assert(l.to == from && bit(repeat_mask(p), to));
        assert(piece_at(p.bb, from) == m.piece);
        assert(l.path == 0);
        assert(l.moves == 2);
        if l.from != u8::MAX {
            assert(bit(1u64 << (l.from as u64), to));
            assert(to == l.from);
            lemma_attacks_symmetric(from, to, 0);
        } else {
            assert(!bit(0u64, to));
        }
    }
}

proof fn lemma_adjacent_distance(s: int, t: int)
    requires
        orth_adjacent(s, t),
    ensures
        square_distance(s, t) == 1,
{
}

/// A generated move reveals a scout (moves more than one square) only when
/// a scout makes it.
pub proof fn lemma_far_move_is_scout(g: StrategoView, m: Move)
    requires
        consistent(g),
        legal(g.board, g.stack, m),
        square_distance(m.from as int, m.to as int) > 1,
    ensures
        m.piece as int == Piece::SCOUT,
{
    if m.piece as int != Piece::SCOUT {
        lemma_step_adjacent(g, m);
        lemma_adjacent_distance(m.from as int, m.to as int);
    }
}

/// A generated move is flagged quiet, evading or capture, and has the
/// capture bit exactly when it is a capture.
pub proof fn lemma_flag_capture(g: StrategoView, m: Move)
    requires
        legal(g.board, g.stack, m),
    ensures
        m.flag == Flag::QUIET || m.flag == Flag::EVADING || m.flag == Flag::CAPTURE,
        m.flag & Flag::CAPTURE != 0 <==> m.flag == Flag::CAPTURE,
{
    let f = m.flag;
    assert(f == 1u8 || f == 4u8 || f == 2u8 ==> (f & 2u8 != 0 <==> f == 2u8)) by (bit_vector);
}

/// Every move that `gen` generates in a game that keeps the invariant can
/// be made and recorded in the information set, as long as the counters it
/// raises are below their limits.
pub proof fn lemma_legal_can_make(g: StrategoView, m: Move)
    requires
        consistent(g),
        legal(g.board, g.stack, m),
        below_limits(g.board),
    ensures
        can_make(g.board, m),
        can_update(g.info, m, g.board),
        m.from != m.to,
{
    let p = g.board;
    let i = g.info;
    let stm = side(p.stm);
    let o = 1 - stm;
    let from = m.from as int;
    let to = m.to as int;
    let piece = m.piece as int;
    assert(bit(p.bb[stm], from));
    assert(piece_at(p.bb, from) == piece);
    if m.flag == Flag::CAPTURE {
        assert(capture_target(p, piece, from, to));
        assert(bit(p.bb[o], to));
        assert(from != to);
    } else {
        assert(quiet_target(p, g.stack, piece, from, to));
        assert(from != to);
    }
    lemma_flag_capture(g, m);
    if reveals_defender(i, m, p) {
        let d = piece_at(p.bb, to);
        assert(bit(p.bb[o], to));
        assert(2 <= d < 10);
        lemma_piece_at_bit(p.bb, to);
        assert(bit(i.bb[o] & p.bb[d], to));
        lemma_popcount_pos(i.bb[o] & p.bb[d], to);
        assert(i.unknown[o][d] >= 1);
        assert(can_remove(i, o, d, to));
    }
    let i1 = after_defender(i, m, p);
    assert(i1.bb[stm] == i.bb[stm]);
    assert(i1.unknown[stm] == i.unknown[stm]);
    if bit(i1.bb[stm], from) {
        assert(bit(i.bb[stm] & p.bb[piece], from));
        lemma_popcount_pos(i.bb[stm] & p.bb[piece], from);
        assert(i.unknown[stm][piece] >= 1);
        if m.flag & Flag::CAPTURE == 0 && square_distance(from, to) > 1 {
            lemma_far_move_is_scout(g, m);
        }
    }
}

/// The squares of the bitboards after a generated move `m`: the square left
/// is empty, the target holds the mover after a quiet move or a won
/// attack, nothing after a tie and the defender after a lost attack; the
/// other squares are as before.
pub open spec fn made_bit(p: PositionView, m: Move, k: int, t: int) -> bool {
    let stm = side(p.stm);
    let piece = m.piece as int;
    let other = piece_at(p.bb, m.to as int);
    if t != m.from as int && t != m.to as int {
        bit(p.bb[k], t)
    } else if t == m.from as int {
        false
    } else if m.flag & Flag::CAPTURE == 0 {
        k == stm || k == piece
    } else if battle(piece, other) > 0 {
        k == stm || k == piece
    } else if battle(piece, other) == 0 {
        false
    } else {
        k == 1 - stm || k == other
    }
}

proof fn lemma_toggled_bit(p: PositionView, s: int, piece: int, sq: int, k: int, t: int)
    requires
        p.bb.len() == 10,
        0 <= s < 10,
        0 <= piece < 10,
        s != piece,
        0 <= sq < 64,
        0 <= k < 10,
    ensures
        bit(toggled(p, s, piece, sq).bb[k], t) == (bit(p.bb[k], t) != (t == sq && (k == s || k == piece))),
        toggled(p, s, piece, sq).bb.len() == 10,
{
    assert(bit(1u64 << (sq as u64), t) == (t == sq));
}

proof fn lemma_piece_from_exact(bb: Seq<u64>, q: int, i: int, k: int)
    requires
        2 <= i <= k < 10,
        bit(bb[k], q),
        forall|j: int| i <= j < k ==> !bit(#[trigger] bb[j], q),
    ensures
        piece_from(bb, q, i) == k,
    decreases k - i,
{
    if i < k {
        lemma_piece_from_exact(bb, q, i + 1, k);
    }
}

proof fn lemma_piece_from_none(bb: Seq<u64>, q: int, i: int)
    requires
        2 <= i <= 10,
        forall|j: int| i <= j < 10 ==> !bit(#[trigger] bb[j], q),
    ensures
        piece_from(bb, q, i) == usize::MAX,
    decreases 10 - i,
{
    if i < 10 {
        lemma_piece_from_none(bb, q, i + 1);
    }
}

/// The bitboards after a generated move, square by square.
pub proof fn lemma_made_bits(g: StrategoView, m: Move)
    requires
        consistent(g),
        legal(g.board, g.stack, m),
        below_limits(g.board),
    ensures
        made(g.board, m).bb.len() == 10,
        forall|k: int, t: int| 0 <= k < 10 ==> #[trigger] bit(made(g.board, m).bb[k], t) == made_bit(g.board, m, k, t),
{
    lemma_legal_can_make(g, m);
    lemma_flag_capture(g, m);
    let p = g.board;
    let stm = side(p.stm);
    let o = 1 - stm;
    let piece = m.piece as int;
    let from = m.from as int;
    let to = m.to as int;
    let p1 = PositionView {
        stm: !p.stm,
        last: p.last.update(stm, next_last(p.last[stm], m)),
        attacks: crate::stratego::attacks::orth_bb(m.to as int),
        evading: p.evading.update(stm, m.flag & Flag::EVADING != 0),
        ..p
    };
    assert(piece_at(p.bb, from) == piece);
    assert(!bit(p.bb[Piece::UNKNOWN as int], from)) by {
        if bit(p.bb[Piece::UNKNOWN as int], from) {
            assert(piece_at(p.bb, from) == Piece::UNKNOWN);
        }
    }
    let p2 = toggled(p1, stm, piece, from);
    assert forall|k: int, t: int| 0 <= k < 10 implies #[trigger] bit(p2.bb[k], t) == (if t == from { false } else { bit(p.bb[k], t) }) by {
        lemma_toggled_bit(p1, stm, piece, from, k, t);
        if t == from && 2 <= k < 10 && bit(p.bb[k], t) {
            assert(piece_at(p.bb, from) == k);
        }
    }
    let p3 = PositionView { half: 0, attacker: m.piece, ..p2 };
    let other = piece_at(p.bb, to);
    if m.flag & Flag::CAPTURE == 0 {
        assert(!bit(occupied(p), to));
        assert forall|k: int| 2 <= k < 10 implies !#[trigger] bit(p.bb[k], to) by {}
        let q = toggled(p2, stm, piece, to);
        assert forall|k: int, t: int| 0 <= k < 10 implies #[trigger] bit(made(p, m).bb[k], t) == made_bit(p, m, k, t) by {
            lemma_toggled_bit(p2, stm, piece, to, k, t);
            assert(bit(p2.bb[k], t) == (if t == from { false } else { bit(p.bb[k], t) }));
        }
    } else {
        assert(bit(p.bb[o], to));
        assert(2 <= other < 10);
        lemma_piece_at_bit(p.bb, to);
        crate::stratego::lemma_piece_at_same(p3.bb, p.bb, to);
        assert(piece_at(p3.bb, to) == other);
        assert forall|k: int| 2 <= k < 10 && k != other implies !#[trigger] bit(p.bb[k], to) by {
            if bit(p.bb[k], to) {
                assert(piece_at(p.bb, to) == k);
            }
        }
        assert(!bit(p.bb[stm], to));
        if battle(piece, other) > 0 {
            assert(piece != other);
            let t1 = toggled(p3, stm, piece, to);
            assert forall|k: int, t: int| 0 <= k < 10 implies #[trigger] bit(made(p, m).bb[k], t) == made_bit(p, m, k, t) by {
                lemma_toggled_bit(p3, stm, piece, to, k, t);
                lemma_toggled_bit(t1, o, other, to, k, t);
                assert(bit(p2.bb[k], t) == (if t == from { false } else { bit(p.bb[k], t) }));
            }
        } else if battle(piece, other) == 0 {
            assert forall|k: int, t: int| 0 <= k < 10 implies #[trigger] bit(made(p, m).bb[k], t) == made_bit(p, m, k, t) by {
                lemma_toggled_bit(p3, o, other, to, k, t);
                assert(bit(p2.bb[k], t) == (if t == from { false } else { bit(p.bb[k], t) }));
            }
        } else {
            assert forall|k: int, t: int| 0 <= k < 10 implies #[trigger] bit(made(p, m).bb[k], t) == made_bit(p, m, k, t) by {
                assert(bit(p2.bb[k], t) == (if t == from { false } else { bit(p.bb[k], t) }));
            }
        }
    }
}

/// Making a generated move keeps the board well formed.
proof fn lemma_made_board_wf(g: StrategoView, m: Move)
    requires
        consistent(g),
        legal(g.board, g.stack, m),
        below_limits(g.board),
    ensures
        board_wf(made(g.board, m)),
{
    lemma_legal_can_make(g, m);
    lemma_made_bits(g, m);
    lemma_flag_capture(g, m);
    let p = g.board;
    let q = made(p, m);
    let stm = side(p.stm);
    let piece = m.piece as int;
    let from = m.from as int;
    let to = m.to as int;
    let other = piece_at(p.bb, to);
    if m.flag & Flag::CAPTURE != 0 {
        assert(bit(p.bb[1 - stm], to));
        assert(2 <= other < 10);
    }
    // the piece on each square after the move
    assert forall|t: int| 0 <= t < 64 && t != from && t != to implies piece_at(q.bb, t) == piece_at(p.bb, t) by {
        assert forall|j: int| 2 <= j < 10 implies bit(q.bb[j], t) == bit(p.bb[j], t) by {
            assert(bit(q.bb[j], t) == made_bit(p, m, j, t));
        }
        crate::stratego::lemma_piece_at_same(q.bb, p.bb, t);
    }
    let placed = if m.flag & Flag::CAPTURE == 0 || battle(piece, other) > 0 {
        piece
    } else {
        other
    };
    if m.flag & Flag::CAPTURE == 0 || battle(piece, other) != 0 {
        assert forall|j: int| 2 <= j < placed implies !#[trigger] bit(q.bb[j], to) by {
            assert(bit(q.bb[j], to) == made_bit(p, m, j, to));
        }
        assert(bit(q.bb[placed], to) == made_bit(p, m, placed, to));
        lemma_piece_from_exact(q.bb, to, 2, placed);
    } else {
        assert forall|j: int| 2 <= j < 10 implies !#[trigger] bit(q.bb[j], to) by {
            assert(bit(q.bb[j], to) == made_bit(p, m, j, to));
        }
        lemma_piece_from_none(q.bb, to, 2);
    }
    assert forall|j: int| 2 <= j < 10 implies !#[trigger] bit(q.bb[j], from) by {
        assert(bit(q.bb[j], from) == made_bit(p, m, j, from));
    }
    lemma_piece_from_none(q.bb, from, 2);
    assert forall|t: int| !(#[trigger] bit(q.bb[0], t) && bit(q.bb[1], t)) by {
        assert(bit(q.bb[0], t) == made_bit(p, m, 0, t));
        assert(bit(q.bb[1], t) == made_bit(p, m, 1, t));
    }
    assert forall|k: int, t: int|
        2 <= k < 10 && #[trigger] bit(q.bb[k], t) implies (bit(q.bb[0], t) || bit(q.bb[1], t)) && piece_at(q.bb, t) == k by {
        assert(bit(q.bb[k], t) == made_bit(p, m, k, t));
        assert(bit(q.bb[0], t) == made_bit(p, m, 0, t));
        assert(bit(q.bb[1], t) == made_bit(p, m, 1, t));
    }
    assert forall|t: int| (bit(q.bb[0], t) || bit(q.bb[1], t)) implies 2 <= piece_at(q.bb, t) < 10 by {
        assert(bit(q.bb[0], t) == made_bit(p, m, 0, t));
        assert(bit(q.bb[1], t) == made_bit(p, m, 1, t));
    }
}

proof fn lemma_count_two(x: u64, y: u64, a: int, b: int, n: int)
    requires
        0 <= a < 64,
        0 <= b < 64,
        a != b,
        0 <= n <= 64,
        forall|t: int| 0 <= t < 64 && t != a && t != b ==> bit(x, t) == bit(y, t),
    ensures
        count_below(y, n) + (if a < n && bit(x, a) { 1int } else { 0int }) + (if b < n && bit(x, b) { 1int } else { 0int })
            == count_below(x, n) + (if a < n && bit(y, a) { 1int } else { 0int }) + (if b < n && bit(y, b) { 1int } else { 0int }),
    decreases n,
{
    if n > 0 {
        lemma_count_two(x, y, a, b, n - 1);
    }
}

/// The number of squares of `y`, which agrees with `x` but on `a` and `b`.
proof fn lemma_popcount_two(x: u64, y: u64, a: int, b: int)
    requires
        0 <= a < 64,
        0 <= b < 64,
        a != b,
        forall|t: int| 0 <= t < 64 && t != a && t != b ==> bit(x, t) == bit(y, t),
    ensures
        popcount(y) + (if bit(x, a) { 1int } else { 0int }) + (if bit(x, b) { 1int } else { 0int })
            == popcount(x) + (if bit(y, a) { 1int } else { 0int }) + (if bit(y, b) { 1int } else { 0int }),
{
    lemma_count_two(x, y, a, b, 64);
    lemma_popcount_squares(x);
    lemma_popcount_squares(y);
}

/// The squares of the information set after a generated move: the square
/// left is unknown no more, the target is unknown after a step of a piece
/// that was unknown, the defender's square is known after a capture.
pub open spec fn info_bit(i: InformationView, p: PositionView, m: Move, s: int, t: int) -> bool {
    let stm = side(p.stm);
    let from = m.from as int;
    let to = m.to as int;
    if t != from && t != to {
        bit(i.bb[s], t)
    } else if s == stm && t == to && m.flag & Flag::CAPTURE == 0 {
        bit(i.bb[stm], from) && square_distance(from, to) <= 1
    } else {
        false
    }
}

/// The information set after a generated move, square by square and rank
/// by rank.
proof fn lemma_updated_info(g: StrategoView, m: Move)
    requires
        consistent(g),
        legal(g.board, g.stack, m),
        below_limits(g.board),
    ensures
        ({
            let i = g.info;
            let p = g.board;
            let u = updated(i, m, p);
            let stm = side(p.stm);
            let im = bit(i.bb[stm], m.from as int);
            let capture = m.flag & Flag::CAPTURE != 0;
            let id = capture && bit(i.bb[1 - stm], m.to as int);
            let other = piece_at(p.bb, m.to as int);
            &&& u.bb.len() == 2
            &&& u.initial.len() == 2
            &&& u.unknown.len() == 2
            &&& u.unknown[0].len() == 10
            &&& u.unknown[1].len() == 10
            &&& forall|s: int, t: int| 0 <= s < 2 ==> #[trigger] bit(u.bb[s], t) == info_bit(i, p, m, s, t)
            &&& forall|k: int|
                2 <= k < 10 ==> #[trigger] u.unknown[stm][k] == i.unknown[stm][k] - (if im && k == m.piece && (capture
                    || square_distance(m.from as int, m.to as int) > 1) { 1int } else { 0int })
            &&& forall|k: int|
                2 <= k < 10 ==> #[trigger] u.unknown[1 - stm][k] == i.unknown[1 - stm][k] - (if id && k == other {
                    1int
                } else {
                    0int
                })
        }),
{
    lemma_legal_can_make(g, m);
    lemma_flag_capture(g, m);
    let i = g.info;
    let p = g.board;
    let stm = side(p.stm);
    let o = 1 - stm;
    let from = m.from as int;
    let to = m.to as int;
    let piece = m.piece as int;
    let other = piece_at(p.bb, to);
    let capture = m.flag & Flag::CAPTURE != 0;
    let im = bit(i.bb[stm], from);
    let id = capture && bit(i.bb[o], to);
    let i1 = after_defender(i, m, p);
    let u = updated(i, m, p);
    assert(!bit(i.bb[o], from)) by {
        if bit(i.bb[o], from) {
            assert(bit(p.bb[o], from));
        }
    }
    assert(!bit(i.bb[stm], to)) by {
        if bit(i.bb[stm], to) {
            assert(bit(p.bb[stm], to));
            if capture {
                assert(bit(p.bb[o], to));
            } else {
                assert(!bit(occupied(p), to));
            }
        }
    }
    if !capture {
        assert(!bit(i.bb[o], to)) by {
            if bit(i.bb[o], to) {
                assert(bit(p.bb[o], to));
                assert(!bit(occupied(p), to));
            }
        }
    }
    let k_to = 1u64 << (m.to as u64);
    let k_from = 1u64 << (m.from as u64);
    assert forall|t: int| #[trigger] bit(i1.bb[o], t) == (bit(i.bb[o], t) && !(id && t == to)) by {
        assert(bit(k_to, t) == (t == to));
    }
    assert(i1.bb[stm] == i.bb[stm]);
    if im {
        let rev = square_distance(from, to) > 1;
        if rev {
            lemma_far_move_is_scout(g, m);
        }
        assert forall|s: int, t: int| 0 <= s < 2 implies #[trigger] bit(u.bb[s], t) == info_bit(i, p, m, s, t) by {
            assert(bit(k_to, t) == (t == to));
            assert(bit(k_from, t) == (t == from));
        }
    } else {
        assert(u == i1);
        assert forall|s: int, t: int| 0 <= s < 2 implies #[trigger] bit(u.bb[s], t) == info_bit(i, p, m, s, t) by {}
    }
}

/// Making a generated move keeps the information set in agreement with the
/// board.
proof fn lemma_made_info_wf(g: StrategoView, m: Move)
    requires
        consistent(g),
        legal(g.board, g.stack, m),
        below_limits(g.board),
    ensures
        info_wf(updated(g.info, m, g.board), made(g.board, m)),
{
    lemma_legal_can_make(g, m);
    lemma_flag_capture(g, m);
    lemma_made_bits(g, m);
    lemma_updated_info(g, m);
    let i = g.info;
    let p = g.board;
    let q = made(p, m);
    let u = updated(i, m, p);
    let stm = side(p.stm);
    let o = 1 - stm;
    let from = m.from as int;
    let to = m.to as int;
    let piece = m.piece as int;
    let other = piece_at(p.bb, to);
    let capture = m.flag & Flag::CAPTURE != 0;
    if capture {
        assert(bit(p.bb[o], to));
        assert(2 <= other < 10);
        lemma_piece_at_bit(p.bb, to);
    }
    assert(piece_at(p.bb, from) == piece);
    assert forall|s: int, t: int| 0 <= s < 2 && #[trigger] bit(u.bb[s], t) implies bit(q.bb[s], t) by {
        assert(bit(u.bb[s], t) == info_bit(i, p, m, s, t));
        assert(bit(q.bb[s], t) == made_bit(p, m, s, t));
    }
    assert forall|s: int, k: int| 0 <= s < 2 && 2 <= k < 10 implies #[trigger] u.unknown[s][k] == popcount(u.bb[s] & q.bb[k]) by {
        let x = i.bb[s] & p.bb[k];
        let y = u.bb[s] & q.bb[k];
        assert forall|t: int| 0 <= t < 64 && t != from && t != to implies bit(x, t) == bit(y, t) by {
            assert(bit(u.bb[s], t) == info_bit(i, p, m, s, t));
            assert(bit(q.bb[k], t) == made_bit(p, m, k, t));
        }
        lemma_popcount_two(x, y, from, to);
        assert(bit(u.bb[s], from) == info_bit(i, p, m, s, from));
        assert(bit(q.bb[k], from) == made_bit(p, m, k, from));
        assert(bit(u.bb[s], to) == info_bit(i, p, m, s, to));
        assert(bit(q.bb[k], to) == made_bit(p, m, k, to));
        if bit(p.bb[k], from) {
            assert(piece_at(p.bb, from) == k);
        }
        if capture && bit(p.bb[k], to) {
            assert(piece_at(p.bb, to) == k);
        }
        if !capture {
            assert(!bit(occupied(p), to));
            assert(!bit(p.bb[k], to)) by {
                if bit(p.bb[k], to) {
                    assert(bit(p.bb[0], to) || bit(p.bb[1], to));
                }
            }
        }
        if !bit(i.bb[s], from) || !bit(p.bb[k], from) {
            assert(!bit(x, from));
        }
        if s == stm {
            assert(u.unknown[s][k] == u.unknown[stm][k]);
            if square_distance(from, to) > 1 && bit(i.bb[stm], from) && k == piece && !capture {
                lemma_far_move_is_scout(g, m);
            }
        } else {
            assert(s == o);
            assert(u.unknown[s][k] == u.unknown[o][k]);
        }
    }
}

/// The squares of a segment between two different squares on one line: its
/// ends and the squares strictly between them.
proof fn lemma_between_line(a: u8, b: u8, t: int)
    requires
        a < 64,
        b < 64,
        a != b,
        rank_of(a as int) == rank_of(b as int) || file_of(a as int) == file_of(b as int),
    ensures
        bit(between_bb(a, b), t) <==> (t == a || t == b || strictly_between(a as int, b as int, t)),
        bit(between_bb(a, b), t) ==> (rank_of(t) == rank_of(a as int) && rank_of(a as int) == rank_of(b as int)) || (
        file_of(t) == file_of(a as int) && file_of(a as int) == file_of(b as int)),
        between_bb(a, b) != 0,
{
    lemma_between_bits(a, b);
    assert(between_spec(a as int, b as int, a as int));
    assert(bit(between_bb(a, b), a as int));
}

/// Squares of a segment lie on one line, and so do the squares strictly
/// between two of them.
proof fn lemma_segment(path: u64, u: int, v: int, t: int)
    requires
        segment(path),
        bit(path, u),
        bit(path, v),
    ensures
        rank_of(u) == rank_of(v) || file_of(u) == file_of(v),
        strictly_between(u, v, t) ==> bit(path, t),
{
    let (a, b) = choose|a: u8, b: u8|
        a < 64 && b < 64 && a != b && (rank_of(a as int) == rank_of(b as int) || file_of(a as int) == file_of(b as int))
            && path == #[trigger] between_bb(a, b);
    lemma_between_line(a, b, u);
    lemma_between_line(a, b, v);
    lemma_between_line(a, b, t);
}

/// Making a generated move keeps the records of the last moves in agreement
/// with the board.
proof fn lemma_made_last_wf(g: StrategoView, m: Move)
    requires
        consistent(g),
        legal(g.board, g.stack, m),
        below_limits(g.board),
    ensures
        last_wf(made(g.board, m), 0),
        last_wf(made(g.board, m), 1),
{
    lemma_legal_can_make(g, m);
    lemma_flag_capture(g, m);
    lemma_made_bits(g, m);
    lemma_made_board_wf(g, m);
    let p = g.board;
    let q = made(p, m);
    let stm = side(p.stm);
    let o = 1 - stm;
    let from = m.from as int;
    let to = m.to as int;
    let piece = m.piece as int;
    let other = piece_at(p.bb, to);
    let capture = m.flag & Flag::CAPTURE != 0;
    let l = p.last[stm];
    let l2 = next_last(l, m);
    assert(q.last == p.last.update(stm, l2));
    assert(piece_at(p.bb, from) == piece);
    if capture {
        assert(bit(p.bb[o], to));
        assert(2 <= other < 10);
        lemma_piece_at_bit(p.bb, to);
    }
    // the opponent's record
    let lo = p.last[o];
    assert(q.last[o] == lo);
    assert forall|t: int| #[trigger] bit(q.bb[o], t) implies bit(p.bb[o], t) by {
        assert(bit(q.bb[o], t) == made_bit(p, m, o, t));
    }
    if bit(q.bb[o], lo.to as int) {
        let t = lo.to as int;
        assert(bit(p.bb[o], t));
        assert(t != from);
        assert forall|j: int| 2 <= j < 10 implies bit(q.bb[j], t) == bit(p.bb[j], t) by {
            assert(bit(q.bb[j], t) == made_bit(p, m, j, t));
            if t == to && bit(p.bb[j], t) {
                assert(piece_at(p.bb, t) == j);
            }
        }
        crate::stratego::lemma_piece_at_same(q.bb, p.bb, t);
    }
    assert(last_wf(q, o));
    // the mover's record
    let back = moves_back(l, m);
    if back {
        assert(from == l.to as int) by {
            if !(l.from == m.to && l.to == m.from) {
                assert(bit(l.path, from));
                assert(bit(p.bb[stm], from));
            }
        }
    }
    if piece != Piece::SCOUT {
        lemma_step_adjacent(g, m);
    }
    // the squares the move passes hold no other piece of the mover
    if !back && piece == Piece::SCOUT {
        let base = rook_reach(from, to, occupied(p));
        assert(attack_bit(p, piece, from, to));
        if !base {
            assert(l.to == from && bit(repeat_mask(p), to));
            assert(l.moves == 2);
            assert(bit(p.bb[stm], l.to as int));
            assert(l.path != 0);
            assert(bit(l.path, to)) by {
                if !bit(l.path, to) {
                    assert(bit(last_from_mask(p), to));
                    assert(l.from != u8::MAX);
                    assert(bit(1u64 << (l.from as u64), to));
                    assert(to == l.from);
                }
            }
            lemma_segment(l.path, from, to, 0);
            assert forall|t: int| strictly_between(from, to, t) implies !bit(p.bb[stm], t) by {
                lemma_segment(l.path, from, to, t);
            }
        } else {
            assert forall|t: int| strictly_between(from, to, t) implies !bit(p.bb[stm], t) by {
                assert(!bit(occupied(p), t));
            }
        }
        assert(rank_of(from) == rank_of(to) || file_of(from) == file_of(to));
        assert(from != to);
        assert forall|t: int| bit(between_bb(m.from, m.to), t) implies (t == from || t == to || strictly_between(from, to, t)) by {
            lemma_between_line(m.from, m.to, t);
        }
        lemma_between_line(m.from, m.to, from);
        lemma_between_line(m.from, m.to, to);
    }
    assert forall|t: int| #[trigger] bit(q.bb[stm], t) && bit(l2.path, t) implies t == l2.to by {
        assert(bit(q.bb[stm], t) == made_bit(p, m, stm, t));
        if t != to {
            assert(t != from);
            assert(bit(p.bb[stm], t));
            if back {
                assert(l2.path == l.path);
            } else if piece == Piece::SCOUT {
                assert(l2.path == between_bb(m.from, m.to));
                assert(strictly_between(from, to, t));
            } else {
                assert(l2.path == 0);
                assert(!bit(0u64, t));
            }
        }
    }
    let at_to = bit(q.bb[stm], to);
    if at_to {
        assert(made_bit(p, m, stm, to));
        assert(bit(q.bb[piece], to) == made_bit(p, m, piece, to));
        assert(piece_at(q.bb, to) == piece);
        if piece != Piece::SCOUT {
            if back && l.path != 0 {
                assert(bit(p.bb[stm], l.to as int));
            }
        } else {
            if back {
                assert(bit(p.bb[stm], l.to as int));
            }
        }
    }
    if l2.path != 0 {
        if back {
            assert(l2.path == l.path);
            assert(bit(l.path, to)) by {
                if l.from == m.to && l.to == m.from {
                } else {
                }
            }
        } else {
            assert(piece == Piece::SCOUT);
            assert(segment(l2.path)) by {
                assert(l2.path == between_bb(m.from, m.to));
            }
        }
    }
    assert(last_wf(q, stm));
}

/// The game after move `m`: the board after it, the information set that
/// records it, and the hash of the new position on the stack.
pub open spec fn after_move(g: StrategoView, m: Move) -> StrategoView {
    StrategoView {
        board: made(g.board, m),
        info: updated(g.info, m, g.board),
        stack: g.stack.push(made(g.board, m).hash),
    }
}

/// Making a generated move keeps the invariant of a game: the board stays
/// well formed, the records of the last moves agree with it, and the
/// information set still counts the unknown pieces on it. Moves can then be
/// generated again.
pub proof fn lemma_make_keeps_consistent(g: StrategoView, m: Move)
    requires
        consistent(g),
        legal(g.board, g.stack, m),
        below_limits(g.board),
    ensures
        consistent(after_move(g, m)),
        can_gen(made(g.board, m)),
{
    lemma_made_board_wf(g, m);
    lemma_made_last_wf(g, m);
    lemma_made_info_wf(g, m);
    let q = made(g.board, m);
    assert(q.last[side(q.stm)].from < 64 || q.last[side(q.stm)].from == u8::MAX);
}

/// A generated move only moves or removes pieces: the lakes stay free, and
/// neither side has more pieces of any kind than before.
pub proof fn lemma_make_keeps_pieces(g: StrategoView, m: Move)
    requires
        consistent(g),
        legal(g.board, g.stack, m),
        below_limits(g.board),
        lakes_free(g.board),
    ensures
        lakes_free(made(g.board, m)),
        forall|c: int, k: int| 0 <= c < 2 && 2 <= k < 10 ==>
            #[trigger] popcount(made(g.board, m).bb[c] & made(g.board, m).bb[k]) <= popcount(g.board.bb[c] & g.board.bb[k]),
{
    lemma_made_bits(g, m);
    lemma_flag_capture(g, m);
    let p = g.board;
    let q = made(p, m);
    let stm = side(p.stm);
    let from = m.from as int;
    let to = m.to as int;
    let other = piece_at(p.bb, to);
    assert(!bit(lakes(), to)) by {
        if bit(lakes(), to) {
            assert(!bit(p.bb[0], to) && !bit(p.bb[1], to));
            assert(bit(occupied(p), to));
        }
    }
    assert(from != to);
    if m.flag & Flag::CAPTURE != 0 {
        assert(bit(p.bb[1 - stm], to));
        assert(2 <= other < 10);
        lemma_piece_at_bit(p.bb, to);
    }
    assert forall|t: int| #[trigger] bit(lakes(), t) implies !bit(q.bb[0], t) && !bit(q.bb[1], t) by {
        assert(bit(q.bb[0], t) == made_bit(p, m, 0, t));
        assert(bit(q.bb[1], t) == made_bit(p, m, 1, t));
        assert(t != from);
    }
    assert forall|c: int, k: int| 0 <= c < 2 && 2 <= k < 10 implies
        #[trigger] popcount(q.bb[c] & q.bb[k]) <= popcount(p.bb[c] & p.bb[k]) by {
        let x = p.bb[c] & p.bb[k];
        let y = q.bb[c] & q.bb[k];
        assert forall|t: int| 0 <= t < 64 && t != from && t != to implies bit(x, t) == bit(y, t) by {
            assert(bit(q.bb[c], t) == made_bit(p, m, c, t));
            assert(bit(q.bb[k], t) == made_bit(p, m, k, t));
        }
        lemma_popcount_two(x, y, from, to);
        assert(bit(q.bb[c], from) == made_bit(p, m, c, from));
        assert(bit(q.bb[c], to) == made_bit(p, m, c, to));
        assert(bit(q.bb[k], to) == made_bit(p, m, k, to));
    }
}

/// Every target of a generated move lies in the attack set of the piece: a
/// scout's slide stops at the first piece or lake, the other pieces step to
/// a neighbouring square.
pub proof fn lemma_legal_in_reach(p: PositionView, stack: Seq<u64>, m: Move)
    requires
        legal(p, stack, m),
    ensures
        if m.piece as int == Piece::SCOUT {
            rook_reach(m.from as int, m.to as int, occupied(p))
        } else {
            orth_adjacent(m.from as int, m.to as int)
        },
{
}

/// Moves can be generated in every game that keeps the invariant.
pub proof fn lemma_consistent_can_gen(g: StrategoView)
    requires
        consistent(g),
    ensures
        can_gen(g.board),
{
}

/// The records of the last moves before the first move.
pub open spec fn fresh_last(p: PositionView) -> bool {
    &&& p.last.len() == 2
    &&& forall|s: int| 0 <= s < 2 ==> #[trigger] p.last[s] == (SquareMask { moves: 0, from: u8::MAX, to: u8::MAX, path: 0 })
}

proof fn lemma_read_board_fresh(chars: Seq<char>)
    ensures
        read_board(chars) matches Some(st) ==> st.pos.last == empty_position().last && st.pos.evading
            == empty_position().evading && st.pos.bb.len() == 10,
    decreases chars.len(),
{
    if chars.len() > 0 {
        lemma_read_board_fresh(chars.drop_last());
    }
}

/// A position read from a notation has made no move yet.
pub proof fn lemma_read_notation_fresh(chars: Seq<char>)
    requires
        read_notation(chars) is Some,
    ensures
        fresh_last(read_notation(chars).unwrap()),
        read_notation(chars).unwrap().bb.len() == 10,
        read_notation(chars).unwrap().evading.len() == 2,
{
    lemma_read_board_fresh(chars.take(crate::stratego::position::first_space(chars)));
}

/// A game starts in the invariant when its board is well formed: no move
/// made yet, every piece unknown to the opponent.
pub proof fn lemma_start_consistent(p: PositionView, stack: Seq<u64>)
    requires
        board_wf(p),
        fresh_last(p),
    ensures
        consistent(StrategoView { board: p, stack, info: initial_information(p) }),
{
    let i = initial_information(p);
    assert forall|s: int, k: int| 0 <= s < 2 && 2 <= k < 10 implies #[trigger] i.unknown[s][k] == popcount(i.bb[s] & p.bb[k]) by {
        assert((p.bb[s] & all_pieces(p.bb)) & p.bb[k] == p.bb[s] & p.bb[k]) by {
            assert forall|t: int| 0 <= t < 64 implies bit((p.bb[s] & all_pieces(p.bb)) & p.bb[k], t) == bit(p.bb[s] & p.bb[k], t) by {}
            crate::bitboard::lemma_bits_ext((p.bb[s] & all_pieces(p.bb)) & p.bb[k], p.bb[s] & p.bb[k]);
        }
        crate::bitboard::lemma_popcount_le(p.bb[s] & p.bb[k]);
    }
    assert forall|s: int| 0 <= s < 2 implies last_wf(p, s) by {
        assert(p.last[s] == (SquareMask { moves: 0, from: u8::MAX, to: u8::MAX, path: 0 }));
        assert(!bit(0u64, 0));
    }
}

impl Position {
    /// Whether the board is well formed (see `board_wf`): no square holds
    /// pieces of both sides, and the squares of the sides are exactly the
    /// squares of the pieces, one piece on each.
    pub fn well_formed(&self) -> (res: bool)
        ensures
            res == board_wf(self@),
    {
        proof {
            self.lemma_lengths();
        }
        let ghost p = self@;
        let red = self.get(0);
        let blue = self.get(1);
        if red & blue != 0 {
            proof {
                lemma_pop_lowest(red & blue);
            }
            return false;
        }
        let sides = red | blue;
        let mut all: u64 = 0;
        let mut k: usize = 2;
        while k < 10
            invariant
                p == self@,
                p.bb.len() == 10,
                red == p.bb[0],
                blue == p.bb[1],
                sides == red | blue,
                red & blue == 0,
                2 <= k <= 10,
                forall|j: int, q: int| 2 <= j < k && #[trigger] bit(p.bb[j], q) ==> bit(all, q) && bit(sides, q) && piece_at(p.bb, q) == j,
                forall|q: int| #[trigger] bit(all, q) ==> piece_from(p.bb, q, 2) < k,
            decreases 10 - k,
        {
            let b = self.get(k);
            if b & !sides != 0 {
                proof {
                    lemma_pop_lowest(b & !sides);
                    let t = (b & !sides).trailing_zeros() as int;
                    assert(bit(p.bb[k as int], t) && !bit(p.bb[0], t) && !bit(p.bb[1], t));
                }
                return false;
            }
            if b & all != 0 {
                proof {
                    lemma_pop_lowest(b & all);
                    let t = (b & all).trailing_zeros() as int;
                    assert(bit(p.bb[k as int], t));
                    assert(piece_from(p.bb, t, 2) < k);
                    crate::stratego::position::lemma_piece_from_range(p.bb, t, 2);
                }
                return false;
            }
            proof {
                assert forall|q: int| #[trigger] bit(p.bb[k as int], q) implies piece_at(p.bb, q) == k && bit(sides, q) by {
                    assert(!bit(b & all, q)) by {
                        assert(!bit(0u64, q));
                    }
                    assert(!bit(b & !sides, q)) by {
                        assert(!bit(0u64, q));
                    }
                    assert forall|j: int| 2 <= j < k implies !bit(#[trigger] p.bb[j], q) by {}
                    lemma_piece_from_exact(p.bb, q, 2, k as int);
                }
            }
            let ghost before = all;
            all = all | b;
            proof {
                assert forall|q: int| #[trigger] bit(all, q) implies piece_from(p.bb, q, 2) < k + 1 by {
                    if !bit(before, q) {
                        assert(bit(p.bb[k as int], q));
                    }
                }
            }
            k += 1;
        }
        if sides & !all != 0 {
            proof {
                lemma_pop_lowest(sides & !all);
                let t = (sides & !all).trailing_zeros() as int;
                assert forall|j: int| 2 <= j < 10 implies !bit(#[trigger] p.bb[j], t) by {}
                lemma_piece_from_none(p.bb, t, 2);
            }
            return false;
        }
        proof {
            assert forall|q: int| (bit(p.bb[0], q) || bit(p.bb[1], q)) implies 2 <= piece_at(p.bb, q) < 10 by {
                assert(bit(sides, q));
                assert(!bit(sides & !all, q)) by {
                    assert(!bit(0u64, q));
                }
                assert(bit(all, q));
                crate::stratego::position::lemma_piece_from_range(p.bb, q, 2);
            }
            assert forall|q: int| !(#[trigger] bit(p.bb[0], q) && bit(p.bb[1], q)) by {
                assert(!bit(red & blue, q)) by {
                    assert(!bit(0u64, q));
                }
            }
        }
        true
    }
}

impl StrategoState {
    /// The state at the start of a game given by a notation, when the
    /// notation can be read and its board is well formed; `None` otherwise.
    /// Such a state keeps the invariant of a game.
    pub fn start(notation: &str) -> (res: Option<Self>)
        ensures
            res is Some <==> (read_notation(notation@) is Some && board_wf(read_notation(notation@).unwrap())),
            res matches Some(s) ==> {
                &&& s@.board == read_notation(notation@).unwrap()
                &&& s@.stack == Seq::<u64>::empty()
                &&& s@.info == initial_information(s@.board)
                &&& consistent(s@)
            },
    {
        match StrategoState::try_from(notation) {
            None => None,
            Some(s) => {
                if s.board().well_formed() {
                    proof {
                        lemma_read_notation_fresh(notation@);
                        lemma_start_consistent(s@.board, s@.stack);
                    }
                    Some(s)
                } else {
                    None
                }
            },
        }
    }

    /// Whether the counters that the next move raises are below their
    /// limits (see `below_limits`).
    pub fn within_limits(&self) -> (res: bool)
        ensures
            res == below_limits(self@.board),
    {
        let board = self.board();
        proof {
            board.lemma_lengths();
        }
        let stm: usize = if board.stm() {
            1
        } else {
            0
        };
        board.half() < 65535 && board.last(stm).moves < 255
    }
}

} // verus!
