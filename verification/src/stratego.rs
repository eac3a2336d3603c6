//! The game: board, moves, hidden information and the game state seen by a player.
pub mod attacks;
pub mod drawing;
pub mod hiding;
pub mod information;
pub mod moves;
pub mod position;
pub mod rules;
pub mod util;

pub use attacks::{between_squares, chebyshev, orthogonal, ranged};
pub use moves::{Move, MoveList, MoveStack};
pub use position::Position;
pub use util::{flip_bb, Flag, Piece};

use crate::bitboard::{bit, count_below, group_bits, lemma_pop_lowest};
use information::{can_update, updated, InformationSet, InformationView};
use position::{can_gen, can_make, legal, gen_sorted, made, piece_at, toggled, PositionView};
use vstd::prelude::*;

verus! {

broadcast use group_bits;

/// Result of the game from the view of the side that moved last.
#[derive(Clone, Copy, PartialEq, Eq, Debug, Default, Structural)]
pub enum GameState {
    #[default]
    Ongoing,
    Win,
    Draw,
    Loss,
}

/// The state of a game as one player sees it: the board, the hashes of
/// earlier positions and what is known of the pieces.
pub struct StrategoState {
    board: Position,
    stack: MoveStack,
    info: InformationSet,
}

/// The contents of a `StrategoState`.
pub struct StrategoView {
    pub board: PositionView,
    pub stack: Seq<u64>,
    pub info: InformationView,
}

impl View for StrategoState {
    type V = StrategoView;

    closed spec fn view(&self) -> StrategoView {
        StrategoView { board: self.board@, stack: self.stack@, info: self.info@ }
    }
}

impl Clone for StrategoState {
    fn clone(&self) -> (res: Self)
        ensures
            res@ == self@,
    {
        StrategoState { board: self.board, stack: self.stack.clone(), info: self.info }
    }
}

/// Replaces the unknown pieces of side `stm` on the squares of `mask` below
/// `k`, from the lowest square up, by the pieces taken from the end of
/// `pieces`; gives the board and the pieces left.
pub open spec fn det_stage(p: PositionView, stm: int, mask: u64, pieces: Seq<usize>, k: int) -> (PositionView, Seq<usize>)
    decreases k,
{
    if k <= 0 {
        (p, pieces)
    } else {
        let (q, rest) = det_stage(p, stm, mask, pieces, k - 1);
        if bit(mask, k - 1) && rest.len() > 0 {
            (toggled(toggled(q, stm, Piece::UNKNOWN as int, k - 1), stm, rest.last() as int, k - 1), rest.drop_last())
        } else {
            (q, rest)
        }
    }
}

/// The unknown pieces of red that never moved, or of blue.
pub open spec fn unmoved_unknown(p: PositionView, info: InformationView, stm: int) -> u64 {
    p.bb[Piece::UNKNOWN as int] & info.initial[stm] & p.bb[stm]
}

pub open spec fn unknown_of(p: PositionView, stm: int) -> u64 {
    p.bb[Piece::UNKNOWN as int] & p.bb[stm]
}

/// One stage of `determinize`: when `mask` is not empty, its squares get
/// pieces from `pieces`.
pub open spec fn stage(p: PositionView, stm: int, mask: u64, pieces: Seq<usize>) -> PositionView {
    if mask != 0 {
        det_stage(p, stm, mask, pieces, 64).0
    } else {
        p
    }
}

/// A stage does not fail: it has no more pieces than squares.
pub open spec fn stage_fits(mask: u64, pieces: Seq<usize>) -> bool {
    mask != 0 ==> pieces.len() <= count_below(mask, 64)
}

pub open spec fn valid_pieces(pieces: Seq<usize>) -> bool {
    forall|i: int| 0 <= i < pieces.len() ==> Piece::FLAG <= #[trigger] pieces[i] <= Piece::BOMB
}

/// The board after the unknown pieces are replaced: first the unmoved ones
/// of red by `red_immovable`, those of blue by `blue_immovable`, then the
/// remaining unknown pieces of red by `red` and of blue by `blue`.
pub open spec fn determinized(s: StrategoView, ri: Seq<usize>, bi: Seq<usize>, r: Seq<usize>, b: Seq<usize>) -> PositionView {
    let p1 = stage(s.board, 0, unmoved_unknown(s.board, s.info, 0), ri);
    let p2 = stage(p1, 1, unmoved_unknown(p1, s.info, 1), bi);
    let p3 = stage(p2, 0, unknown_of(p2, 0), r);
    stage(p3, 1, unknown_of(p3, 1), b)
}

/// `determinize` does not fail on these pieces.
pub open spec fn determinizable(s: StrategoView, ri: Seq<usize>, bi: Seq<usize>, r: Seq<usize>, b: Seq<usize>) -> bool {
    let p1 = stage(s.board, 0, unmoved_unknown(s.board, s.info, 0), ri);
    let p2 = stage(p1, 1, unmoved_unknown(p1, s.info, 1), bi);
    let p3 = stage(p2, 0, unknown_of(p2, 0), r);
    &&& valid_pieces(ri) && valid_pieces(bi) && valid_pieces(r) && valid_pieces(b)
    &&& stage_fits(unmoved_unknown(s.board, s.info, 0), ri)
    &&& stage_fits(unmoved_unknown(p1, s.info, 1), bi)
    &&& stage_fits(unknown_of(p2, 0), r)
    &&& stage_fits(unknown_of(p3, 1), b)
}

/// Replaces the piece of side `stm` on each square of `mask` below `k`, from
/// the lowest square up, by a piece of unknown rank.
pub open spec fn anonymized(p: PositionView, mask: u64, stm: int, k: int) -> PositionView
    decreases k,
{
    if k <= 0 {
        p
    } else {
        let q = anonymized(p, mask, stm, k - 1);
        if bit(mask, k - 1) {
            let piece = piece_at(q.bb, k - 1);
            toggled(toggled(q, stm, piece, k - 1), stm, Piece::UNKNOWN as int, k - 1)
        } else {
            q
        }
    }
}


/// A toggle on one square leaves the other squares of every bitboard alone.
pub proof fn lemma_toggled_other(p: PositionView, stm: int, piece: int, sq: int, s: int, i: int)
    requires
        0 <= sq < 64,
        s != sq,
        0 <= i < p.bb.len(),
        0 <= stm < p.bb.len(),
        0 <= piece < p.bb.len(),
    ensures
        bit(toggled(p, stm, piece, sq).bb[i], s) == bit(p.bb[i], s),
        toggled(p, stm, piece, sq).bb.len() == p.bb.len(),
{
    if i == stm || i == piece {
        assert(bit(1u64 << (sq as u64), s) == (s == sq));
    }
}

/// The piece on a square depends only on that square of the bitboards.
pub proof fn lemma_piece_at_same(bb1: Seq<u64>, bb2: Seq<u64>, s: int)
    requires
        bb1.len() == 10,
        bb2.len() == 10,
        forall|i: int| 2 <= i < 10 ==> bit(bb1[i], s) == bit(bb2[i], s),
    ensures
        piece_at(bb1, s) == piece_at(bb2, s),
{
    lemma_piece_from_same(bb1, bb2, s, 2);
}

proof fn lemma_piece_from_same(bb1: Seq<u64>, bb2: Seq<u64>, s: int, i: int)
    requires
        2 <= i,
        forall|j: int| 2 <= j < 10 ==> bit(bb1[j], s) == bit(bb2[j], s),
    ensures
        position::piece_from(bb1, s, i) == position::piece_from(bb2, s, i),
    decreases 10 - i,
{
    if i < 10 {
        lemma_piece_from_same(bb1, bb2, s, i + 1);
    }
}

proof fn lemma_anonymized_above(p: PositionView, mask: u64, stm: int, k: int, s: int, i: int)
    requires
        p.bb.len() == 10,
        0 <= stm < 2,
        0 <= i < 10,
        k <= s,
        k <= 64,
        forall|t: int| 0 <= t < k && bit(mask, t) ==> Piece::FLAG <= piece_at(p.bb, t) <= Piece::BOMB,
    ensures
        anonymized(p, mask, stm, k).bb.len() == 10,
        bit(anonymized(p, mask, stm, k).bb[i], s) == bit(p.bb[i], s),
    decreases k,
{
    if k > 0 {
        lemma_anonymized_above(p, mask, stm, k - 1, s, i);
        let q = anonymized(p, mask, stm, k - 1);
        if bit(mask, k - 1) {
            assert forall|j: int| 2 <= j < 10 implies bit(q.bb[j], k - 1) == bit(p.bb[j], k - 1) by {
                lemma_anonymized_above(p, mask, stm, k - 1, k - 1, j);
            }
            lemma_piece_at_same(q.bb, p.bb, k - 1);
            let piece = piece_at(q.bb, k - 1);
            let q1 = toggled(q, stm, piece, k - 1);
            lemma_toggled_other(q, stm, piece, k - 1, s, i);
            lemma_toggled_other(q1, stm, Piece::UNKNOWN as int, k - 1, s, i);
        }
    }
}

proof fn lemma_anonymized_skip(p: PositionView, mask: u64, stm: int, k: int, j: int)
    requires
        0 <= k <= j <= 64,
        forall|t: int| k <= t < j ==> !bit(mask, t),
    ensures
        anonymized(p, mask, stm, j) == anonymized(p, mask, stm, k),
    decreases j - k,
{
    if j > k {
        lemma_anonymized_skip(p, mask, stm, k, j - 1);
    }
}


proof fn lemma_det_stage(p: PositionView, stm: int, mask: u64, pieces: Seq<usize>, k: int)
    requires
        p.bb.len() == 10,
        0 <= stm < 2,
        0 <= k <= 64,
        valid_pieces(pieces),
    ensures
        det_stage(p, stm, mask, pieces, k).0.bb.len() == 10,
        det_stage(p, stm, mask, pieces, k).1.len() == if pieces.len() >= count_below(mask, k) {
            pieces.len() - count_below(mask, k)
        } else {
            0
        },
        det_stage(p, stm, mask, pieces, k).1 == pieces.take(det_stage(p, stm, mask, pieces, k).1.len() as int),
    decreases k,
{
    if k > 0 {
        lemma_det_stage(p, stm, mask, pieces, k - 1);
        let (q, rest) = det_stage(p, stm, mask, pieces, k - 1);
        if bit(mask, k - 1) && rest.len() > 0 {
            assert(rest.drop_last() =~= pieces.take(rest.len() - 1));
        }
    }
}

proof fn lemma_det_stage_skip(p: PositionView, stm: int, mask: u64, pieces: Seq<usize>, k: int, j: int)
    requires
        0 <= k <= j <= 64,
        forall|t: int| k <= t < j ==> !bit(mask, t),
    ensures
        det_stage(p, stm, mask, pieces, j) == det_stage(p, stm, mask, pieces, k),
        count_below(mask, j) == count_below(mask, k),
    decreases j - k,
{
    if j > k {
        lemma_det_stage_skip(p, stm, mask, pieces, k, j - 1);
    }
}


/// The piece of the `i`-th feature plane pair: flag, spy, scout, miner,
/// general, marshal, bomb.
pub open spec fn feature_piece(i: int) -> int {
    if i < 6 {
        i + 2
    } else {
        Piece::BOMB as int
    }
}

/// Input `j` of the value network from the view of side `stm`: plane
/// `j / 64` is a piece of `stm` (even planes) or of the opponent (odd planes),
/// square `j % 64`, with the board mirrored for blue.
pub open spec fn feature_active(p: PositionView, stm: int, j: int) -> bool {
    let plane = j / 64;
    let sq = j % 64;
    let owner = if plane % 2 == 0 { stm } else { 1 - stm };
    let piece = feature_piece(plane / 2);
    let src = if stm == 1 { util::flip_sq(sq) } else { sq };
    bit(p.bb[owner] & p.bb[piece], src)
}

/// Square `sq` of the bitboard of plane `plane` (the pieces of the plane,
/// mirrored for blue) is set exactly for the active feature `plane * 64 + sq`.
proof fn lemma_plane_bits(p: PositionView, stm: int, plane: int, bb: u64)
    requires
        0 <= stm < 2,
        0 <= plane < 14,
        forall|sq: int| 0 <= sq < 64 ==> (#[trigger] bit(bb, sq) <==> bit(
            p.bb[if plane % 2 == 0 { stm } else { 1 - stm }] & p.bb[feature_piece(plane / 2)],
            if stm == 1 { util::flip_sq(sq) } else { sq },
        )),
    ensures
        forall|j: int| plane * 64 <= j < plane * 64 + 64 ==> (#[trigger] bit(bb, j - plane * 64) <==> feature_active(p, stm, j)),
{
    assert forall|j: int| plane * 64 <= j < plane * 64 + 64 implies (#[trigger] bit(bb, j - plane * 64) <==> feature_active(p, stm, j)) by {
        assert(j / 64 == plane);
        assert(j % 64 == j - plane * 64);
    }
}

impl StrategoState {
    pub const PIECES: usize = 7;
    pub const BOARD: usize = 64;
    pub const FEATURES: usize = 896;

    /// The state at the start of a game given by a notation: no earlier
    /// positions, and every piece unknown to the opponent.
    pub fn from(notation: &str) -> (res: Self)
        requires
            position::read_notation(notation@) is Some,
        ensures
            res@.board == position::read_notation(notation@).unwrap(),
            res@.stack == Seq::<u64>::empty(),
            res@.info == information::initial_information(res@.board),
    {
        let board = Position::from(notation);
        StrategoState { board, stack: MoveStack::default(), info: InformationSet::from(&board) }
    }

    /// The state of a notation, or `None` where the notation cannot be read
    /// (where `from` would fail).
    pub fn try_from(notation: &str) -> (res: Option<Self>)
        ensures
            match position::read_notation(notation@) {
                None => res is None,
                Some(p) => res matches Some(s) && s@.board == p && s@.stack == Seq::<u64>::empty()
                    && s@.info == information::initial_information(p),
            },
    {
        match Position::try_from(notation) {
            Some(_) => Some(StrategoState::from(notation)),
            None => None,
        }
    }

    pub fn board(&self) -> (res: Position)
        ensures
            res@ == self@.board,
    {
        self.board
    }

    pub fn information(&self) -> (res: InformationSet)
        ensures
            res@ == self@.info,
    {
        self.info
    }

    /// The moves of the side to move (see `Position::gen`).
    pub fn gen(&self) -> (moves: MoveList)
        requires
            can_gen(self@.board),
        ensures
            forall|m: Move| moves@.contains(m) <==> legal(self@.board, self@.stack, m),
            gen_sorted(moves@),
    {
        self.board.gen(&self.stack)
    }

    /// Plays `mov`: updates the information, the board and the stack of
    /// hashes.
    pub fn make(&mut self, mov: Move)
        requires
            can_update(old(self)@.info, mov, old(self)@.board),
            can_make(old(self)@.board, mov),
        ensures
            final(self)@.board == made(old(self)@.board, mov),
            final(self)@.info == updated(old(self)@.info, mov, old(self)@.board),
            final(self)@.stack == old(self)@.stack.push(made(old(self)@.board, mov).hash),
    {
        self.info.update(&mov, &self.board);
        self.board.make(&mov);
        self.stack.push(self.board.hash());
    }


    /// Whether `anonymize(stm)` can be called: every square that side `stm`
    /// keeps hidden holds a piece.
    pub fn can_anonymize(&self, stm: usize) -> (res: bool)
        requires
            stm < 2,
        ensures
            res == forall|sq: int| bit(self@.info.bb[stm as int], sq) ==> Piece::FLAG <= #[trigger] piece_at(self@.board.bb, sq) <= Piece::BOMB,
    {
        let mask = self.info.get(stm);
        let mut sq: u8 = 0;
        while sq < 64
            invariant
                sq <= 64,
                mask == self@.info.bb[stm as int],
                forall|t: int| 0 <= t < sq && bit(mask, t) ==> Piece::FLAG <= #[trigger] piece_at(self@.board.bb, t) <= Piece::BOMB,
            decreases 64 - sq,
        {
            if (mask >> (sq as u64)) & 1 == 1 {
                let piece = self.board.piece(sq);
                if piece < Piece::FLAG || piece > Piece::BOMB {
                    assert(bit(mask, sq as int));
                    return false;
                }
            }
            sq += 1;
        }
        true
    }

    /// Hides the rank of every piece of side `stm` whose rank the opponent
    /// does not know: those pieces become unknown pieces.
    pub fn anonymize(&self, stm: usize) -> (res: Self)
        requires
            stm < 2,
            forall|sq: int| bit(self@.info.bb[stm as int], sq) ==> Piece::FLAG <= #[trigger] piece_at(self@.board.bb, sq) <= Piece::BOMB,
        ensures
            res@ == (StrategoView { board: anonymized(self@.board, self@.info.bb[stm as int], stm as int, 64), ..self@ }),
    {
        let mut pos = self.clone();
        let mask = self.info.get(stm);
        let mut bb = mask;
        let ghost p0 = self@.board;
        let ghost mut done: int = 0;
        proof {
            self.board.lemma_lengths();
        }
        while bb != 0
            invariant
                stm < 2,
                mask == self@.info.bb[stm as int],
                p0 == self@.board,
                p0.bb.len() == 10,
                forall|sq: int| bit(mask, sq) ==> Piece::FLAG <= #[trigger] piece_at(p0.bb, sq) <= Piece::BOMB,
                0 <= done <= 64,
                forall|u: int| #[trigger] bit(bb, u) <==> bit(mask, u) && u >= done,
                pos@ == (StrategoView { board: anonymized(p0, mask, stm as int, done), ..self@ }),
            decreases bb,
        {
            proof {
                lemma_pop_lowest(bb);
            }
            let ghost old_bb = bb;
            let sq = bb.trailing_zeros() as u8;
            bb = bb & bb.wrapping_sub(1);
            proof {
                assert forall|t: int| done <= t < sq implies !bit(mask, t) by {
                    if bit(mask, t) {
                        assert(bit(old_bb, t));
                    }
                }
                lemma_anonymized_skip(p0, mask, stm as int, done, sq as int);
                assert forall|j: int| 2 <= j < 10 implies bit(anonymized(p0, mask, stm as int, sq as int).bb[j], sq as int) == bit(p0.bb[j], sq as int) by {
                    lemma_anonymized_above(p0, mask, stm as int, sq as int, sq as int, j);
                }
                lemma_anonymized_above(p0, mask, stm as int, sq as int, sq as int, 0);
                lemma_piece_at_same(anonymized(p0, mask, stm as int, sq as int).bb, p0.bb, sq as int);
            }
            let piece = pos.board.piece(sq);
            pos.board.toggle(stm, piece, sq);
            pos.board.toggle(stm, Piece::UNKNOWN, sq);
            proof {
                assert forall|u: int| #[trigger] bit(bb, u) <==> bit(mask, u) && u >= sq + 1 by {}
                done = sq + 1;
            }
        }
        proof {
            assert forall|t: int| done <= t < 64 implies !bit(mask, t) by {
                assert(!bit(bb, t));
            }
            lemma_anonymized_skip(p0, mask, stm as int, done, 64);
        }
        pos
    }


    /// Puts the pieces taken from the end of `pieces` on the unknown pieces of
    /// side `stm` on the squares of `bb`, from the lowest square up.
    fn determinize_bb(pos: &mut StrategoState, stm: usize, bb: u64, pieces: &mut Vec<usize>)
        requires
            stm < 2,
            valid_pieces(old(pieces)@),
            old(pieces)@.len() <= count_below(bb, 64),
        ensures
            final(pos)@ == (StrategoView { board: det_stage(old(pos)@.board, stm as int, bb, old(pieces)@, 64).0, ..old(pos)@ }),
            final(pieces)@.len() == 0,
    {
        let ghost p0 = pos@.board;
        let ghost pieces0 = pieces@;
        let ghost s0 = pos@;
        let mut rest = bb;
        let ghost mut done: int = 0;
        proof {
            pos.board.lemma_lengths();
        }
        while rest != 0
            invariant
                stm < 2,
                p0.bb.len() == 10,
                valid_pieces(pieces0),
                pieces0.len() <= count_below(bb, 64),
                0 <= done <= 64,
                forall|u: int| #[trigger] bit(rest, u) <==> bit(bb, u) && u >= done,
                (pos@.board, pieces@) == det_stage(p0, stm as int, bb, pieces0, done),
                pos@ == (StrategoView { board: pos@.board, ..s0 }),
            decreases rest,
        {
            proof {
                lemma_pop_lowest(rest);
            }
            let ghost old_rest = rest;
            let sq = rest.trailing_zeros() as u8;
            rest = rest & rest.wrapping_sub(1);
            proof {
                assert forall|t: int| done <= t < sq implies !bit(bb, t) by {
                    if bit(bb, t) {
                        assert(bit(old_rest, t));
                    }
                }
                lemma_det_stage_skip(p0, stm as int, bb, pieces0, done, sq as int);
                lemma_det_stage(p0, stm as int, bb, pieces0, sq as int);
            }
            if let Some(new) = pieces.pop() {
                proof {
                    let r = det_stage(p0, stm as int, bb, pieces0, sq as int).1;
                    assert(new == r.last());
                    assert(r.last() == pieces0[r.len() - 1]);
                }
                pos.board.toggle(stm, Piece::UNKNOWN, sq);
                pos.board.toggle(stm, new, sq);
            }
            proof {
                assert forall|u: int| #[trigger] bit(rest, u) <==> bit(bb, u) && u >= sq + 1 by {}
                done = sq + 1;
            }
        }
        proof {
            assert forall|t: int| done <= t < 64 implies !bit(bb, t) by {
                assert(!bit(rest, t));
            }
            lemma_det_stage_skip(p0, stm as int, bb, pieces0, done, 64);
            lemma_det_stage(p0, stm as int, bb, pieces0, 64);
        }
    }

    /// Gives every unknown piece a rank: the unmoved unknown pieces of red get
    /// the pieces of `red_immovable`, those of blue the pieces of
    /// `blue_immovable`, then the other unknown pieces of red and blue get the
    /// pieces of `red` and `blue` (see `determinized`).
    pub fn determinize(
        &self,
        red_immovable: Vec<usize>,
        blue_immovable: Vec<usize>,
        red: Vec<usize>,
        blue: Vec<usize>,
    ) -> (res: Self)
        requires
            determinizable(self@, red_immovable@, blue_immovable@, red@, blue@),
        ensures
            res@ == (StrategoView { board: determinized(self@, red_immovable@, blue_immovable@, red@, blue@), ..self@ }),
    {
        let mut pos = self.clone();
        let mut red_immovable = red_immovable;
        let mut blue_immovable = blue_immovable;
        let mut red = red;
        let mut blue = blue;

        let unknown = pos.board.get(Piece::UNKNOWN) & self.info.initial(0) & pos.board.get(0);
        if unknown != 0 {
            StrategoState::determinize_bb(&mut pos, 0, unknown, &mut red_immovable);
        }

        let unknown = pos.board.get(Piece::UNKNOWN) & self.info.initial(1) & pos.board.get(1);
        if unknown != 0 {
            StrategoState::determinize_bb(&mut pos, 1, unknown, &mut blue_immovable);
        }

        let unknown = pos.board.get(Piece::UNKNOWN) & pos.board.get(0);
        if unknown != 0 {
            StrategoState::determinize_bb(&mut pos, 0, unknown, &mut red);
        }

        let unknown = pos.board.get(Piece::UNKNOWN) & pos.board.get(1);
        if unknown != 0 {
            StrategoState::determinize_bb(&mut pos, 1, unknown, &mut blue);
        }

        pos
    }

    /// A random determinization: every unknown piece gets a rank among the
    /// pieces that the opponent does not know yet, the unmoved ones first
    /// among the unknown flags and bombs.
    pub fn determination(&self) -> (res: Self)
        requires
            forall|a: Seq<usize>, b: Seq<usize>, c: Seq<usize>, d: Seq<usize>|
                a.to_multiset() == information::available_immovable_spec(self@.info.unknown[0]).to_multiset()
                && b.to_multiset() == information::available_immovable_spec(self@.info.unknown[1]).to_multiset()
                && c.to_multiset() == information::available_spec(self@.info.unknown[0]).to_multiset()
                && d.to_multiset() == information::available_spec(self@.info.unknown[1]).to_multiset()
                ==> #[trigger] determinizable(self@, a, b, c, d),
        ensures
            exists|a: Seq<usize>, b: Seq<usize>, c: Seq<usize>, d: Seq<usize>| {
                &&& a.to_multiset() == information::available_immovable_spec(self@.info.unknown[0]).to_multiset()
                &&& b.to_multiset() == information::available_immovable_spec(self@.info.unknown[1]).to_multiset()
                &&& c.to_multiset() == information::available_spec(self@.info.unknown[0]).to_multiset()
                &&& d.to_multiset() == information::available_spec(self@.info.unknown[1]).to_multiset()
                &&& res@ == (StrategoView { board: #[trigger] determinized(self@, a, b, c, d), ..self@ })
            },
    {
        let mut red_immovable = self.info.available_immovable(0);
        let mut blue_immovable = self.info.available_immovable(1);
        crate::rng::shuffle(&mut red_immovable);
        crate::rng::shuffle(&mut blue_immovable);

        let mut red = self.info.available(0);
        let mut blue = self.info.available(1);
        crate::rng::shuffle(&mut red);
        crate::rng::shuffle(&mut blue);

        proof {
            assert(determinizable(self@, red_immovable@, blue_immovable@, red@, blue@));
        }
        self.determinize(red_immovable, blue_immovable, red, blue)
    }


    /// Whether every item of `v` is a piece that can stand on the board.
    fn all_valid(v: &Vec<usize>) -> (res: bool)
        ensures
            res == valid_pieces(v@),
    {
        let mut i: usize = 0;
        while i < v.len()
            invariant
                i <= v.len(),
                forall|j: int| 0 <= j < i ==> Piece::FLAG <= #[trigger] v@[j] <= Piece::BOMB,
            decreases v.len() - i,
        {
            if v[i] < Piece::FLAG || v[i] > Piece::BOMB {
                return false;
            }
            i += 1;
        }
        true
    }

    /// One stage of a determinization, when it fits: the squares of `mask`
    /// of side `stm` get the pieces of `pieces`. Whether it fitted.
    fn try_stage(pos: &mut StrategoState, stm: usize, mask: u64, pieces: &mut Vec<usize>) -> (res: bool)
        requires
            stm < 2,
            valid_pieces(old(pieces)@),
        ensures
            res == stage_fits(mask, old(pieces)@),
            res ==> final(pos)@ == (StrategoView { board: stage(old(pos)@.board, stm as int, mask, old(pieces)@), ..old(pos)@ }),
    {
        if mask != 0 {
            let n = crate::bitboard::count_ones(mask);
            proof {
                crate::bitboard::lemma_popcount_squares(mask);
            }
            if pieces.len() > n as usize {
                return false;
            }
            StrategoState::determinize_bb(pos, stm, mask, pieces);
        }
        true
    }

    /// A random determinization, or `None` when the drawn arrangement of
    /// the available pieces does not fit the unknown squares (where
    /// `determination` would fail): the lists are drawn as for
    /// `determination` and `determinized` is taken when `determinizable`.
    pub fn try_determination(&self) -> (res: Option<Self>)
        ensures
            exists|a: Seq<usize>, b: Seq<usize>, c: Seq<usize>, d: Seq<usize>| {
                &&& a.to_multiset() == information::available_immovable_spec(self@.info.unknown[0]).to_multiset()
                &&& b.to_multiset() == information::available_immovable_spec(self@.info.unknown[1]).to_multiset()
                &&& c.to_multiset() == information::available_spec(self@.info.unknown[0]).to_multiset()
                &&& d.to_multiset() == information::available_spec(self@.info.unknown[1]).to_multiset()
                &&& (res is Some <==> #[trigger] determinizable(self@, a, b, c, d))
                &&& (res matches Some(r) ==> r@ == (StrategoView { board: determinized(self@, a, b, c, d), ..self@ }))
            },
    {
        let mut red_immovable = self.info.available_immovable(0);
        let mut blue_immovable = self.info.available_immovable(1);
        crate::rng::shuffle(&mut red_immovable);
        crate::rng::shuffle(&mut blue_immovable);

        let mut red = self.info.available(0);
        let mut blue = self.info.available(1);
        crate::rng::shuffle(&mut red);
        crate::rng::shuffle(&mut blue);

        let ghost a = red_immovable@;
        let ghost b = blue_immovable@;
        let ghost c = red@;
        let ghost d = blue@;
        if !(StrategoState::all_valid(&red_immovable) && StrategoState::all_valid(&blue_immovable)
            && StrategoState::all_valid(&red) && StrategoState::all_valid(&blue)) {
            assert(!determinizable(self@, a, b, c, d));
            return None;
        }

        let mut pos = self.clone();
        let unknown = pos.board.get(Piece::UNKNOWN) & self.info.initial(0) & pos.board.get(0);
        if !StrategoState::try_stage(&mut pos, 0, unknown, &mut red_immovable) {
            assert(!determinizable(self@, a, b, c, d));
            return None;
        }
        let unknown = pos.board.get(Piece::UNKNOWN) & self.info.initial(1) & pos.board.get(1);
        if !StrategoState::try_stage(&mut pos, 1, unknown, &mut blue_immovable) {
            assert(!determinizable(self@, a, b, c, d));
            return None;
        }
        let unknown = pos.board.get(Piece::UNKNOWN) & pos.board.get(0);
        if !StrategoState::try_stage(&mut pos, 0, unknown, &mut red) {
            assert(!determinizable(self@, a, b, c, d));
            return None;
        }
        let unknown = pos.board.get(Piece::UNKNOWN) & pos.board.get(1);
        if !StrategoState::try_stage(&mut pos, 1, unknown, &mut blue) {
            assert(!determinizable(self@, a, b, c, d));
            return None;
        }
        assert(determinizable(self@, a, b, c, d));
        Some(pos)
    }

    /// Which inputs of the value network are set, from the view of side
    /// `stm` (see `feature_active`).
    pub fn features(&self, stm: usize) -> (res: Vec<bool>)
        requires
            stm < 2,
        ensures
            res@.len() == StrategoState::FEATURES,
            forall|j: int| 0 <= j < 896 ==> #[trigger] res@[j] == feature_active(self@.board, stm as int, j),
    {
        let mut features: Vec<bool> = Vec::new();
        let mut k: usize = 0;
        while k < 896
            invariant
                k <= 896,
                features@.len() == k,
                forall|j: int| 0 <= j < k ==> !#[trigger] features@[j],
            decreases 896 - k,
        {
            features.push(false);
            k += 1;
        }

        let us_all = self.board.get(stm);
        let them_all = self.board.get(1 - stm);
        let mut i: usize = 0;
        while i < 7
            invariant
                stm < 2,
                i <= 7,
                us_all == self@.board.bb[stm as int],
                them_all == self@.board.bb[1 - stm as int],
                features@.len() == 896,
                forall|j: int| 0 <= j < 896 ==> #[trigger] features@[j] == (j / 64 < 2 * i && feature_active(self@.board, stm as int, j)),
            decreases 7 - i,
        {
            let piece = if i < 6 { i + 2 } else { Piece::BOMB };
            let pieces = self.board.get(piece);

            let mut us_bb = us_all & pieces;
            let mut them_bb = them_all & pieces;

            if stm == 1 {
                us_bb = flip_bb(us_bb);
                them_bb = flip_bb(them_bb);
            }
            proof {
                lemma_plane_bits(self@.board, stm as int, (i * 2) as int, us_bb);
                lemma_plane_bits(self@.board, stm as int, (i * 2 + 1) as int, them_bb);
            }
            let ghost f1 = features@;
            StrategoState::set_features(&mut features, us_bb, (i * 2) * 64);
            proof {
                assert forall|j: int| 0 <= j < 896 implies #[trigger] features@[j] == (j / 64 < 2 * i + 1 && feature_active(self@.board, stm as int, j)) by {
                    assert(f1[j] == (j / 64 < 2 * i && feature_active(self@.board, stm as int, j)));
                    if (i * 2) * 64 <= j < (i * 2) * 64 + 64 {
                        assert(j / 64 == 2 * i);
                    } else {
                        assert(j / 64 != 2 * i);
                    }
                }
            }
            let ghost f2 = features@;
            StrategoState::set_features(&mut features, them_bb, (i * 2 + 1) * 64);
            proof {
                assert forall|j: int| 0 <= j < 896 implies #[trigger] features@[j] == (j / 64 < 2 * (i + 1) && feature_active(self@.board, stm as int, j)) by {
                    assert(f2[j] == (j / 64 < 2 * i + 1 && feature_active(self@.board, stm as int, j)));
                    if (i * 2 + 1) * 64 <= j < (i * 2 + 1) * 64 + 64 {
                        assert(j / 64 == 2 * i + 1);
                    } else {
                        assert(j / 64 != 2 * i + 1);
                    }
                }
            }
            i += 1;
        }
        features
    }

    /// Sets the features `offset + sq` for the squares `sq` of `bb`.
    fn set_features(features: &mut Vec<bool>, bb: u64, offset: usize)
        requires
            offset <= 832,
            old(features)@.len() == 896,
        ensures
            final(features)@.len() == old(features)@.len(),
            forall|j: int| 0 <= j < old(features)@.len() ==> #[trigger] final(features)@[j] == if offset <= j < offset + 64 {
                old(features)@[j] || bit(bb, j - offset)
            } else {
                old(features)@[j]
            },
    {
        let ghost f0 = features@;
        let mut rest = bb;
        let ghost mut done: int = 0;
        while rest != 0
            invariant
                offset <= 832,
                f0.len() == 896,
                features@.len() == f0.len(),
                0 <= done <= 64,
                forall|u: int| #[trigger] bit(rest, u) <==> bit(bb, u) && u >= done,
                forall|j: int| 0 <= j < f0.len() ==> #[trigger] features@[j] == if offset <= j < offset + done {
                    f0[j] || bit(bb, j - offset)
                } else {
                    f0[j]
                },
            decreases rest,
        {
            proof {
                lemma_pop_lowest(rest);
            }
            let ghost old_rest = rest;
            let sq = rest.trailing_zeros() as usize;
            assert(sq < 64);
            rest = rest & rest.wrapping_sub(1);
            features.set(offset + sq, true);
            proof {
                assert forall|j: int| 0 <= j < f0.len() implies #[trigger] features@[j] == if offset <= j < offset + sq + 1 {
                    f0[j] || bit(bb, j - offset)
                } else {
                    f0[j]
                } by {
                    if offset + done <= j < offset + sq {
                        if bit(bb, j - offset) {
                            assert(bit(old_rest, j - offset));
                        }
                    }
                }
                assert forall|u: int| #[trigger] bit(rest, u) <==> bit(bb, u) && u >= sq + 1 by {}
                done = sq + 1;
            }
        }
        proof {
            assert forall|j: int| 0 <= j < f0.len() implies #[trigger] features@[j] == if offset <= j < offset + 64 {
                f0[j] || bit(bb, j - offset)
            } else {
                f0[j]
            } by {
                if offset + done <= j < offset + 64 {
                    assert(!bit(rest, j - offset));
                }
            }
        }
    }

    pub fn game_state(&self) -> (res: GameState)
        ensures
            res == self@.board.state,
    {
        self.board.game_state()
    }

    pub fn set_game_state(&mut self, state: GameState)
        ensures
            final(self)@ == (StrategoView { board: PositionView { state, ..old(self)@.board }, ..old(self)@ }),
    {
        self.board.set_game_state(state);
    }

    pub fn hash(&self) -> (res: u64)
        ensures
            res == self@.board.hash,
    {
        self.board.hash()
    }

    pub fn stm(&self) -> (res: bool)
        ensures
            res == self@.board.stm,
    {
        self.board.stm()
    }

    pub fn game_over(&self) -> (res: bool)
        ensures
            res == (self@.board.state != GameState::Ongoing),
    {
        self.board.game_over()
    }
}

/// Two boards hold the same on square `sq`.
pub open spec fn agree_at(p: PositionView, q: PositionView, sq: int) -> bool {
    forall|i: int| 0 <= i < 10 ==> #[trigger] bit(p.bb[i], sq) == bit(q.bb[i], sq)
}

/// A stage leaves the squares outside its mask as they were, and the
/// bitboards of the two sides everywhere.
proof fn lemma_det_stage_frame(p: PositionView, stm: int, mask: u64, pieces: Seq<usize>, k: int)
    requires
        p.bb.len() == 10,
        0 <= stm < 2,
        0 <= k <= 64,
        valid_pieces(pieces),
    ensures
        det_stage(p, stm, mask, pieces, k).0.bb.len() == 10,
        valid_pieces(det_stage(p, stm, mask, pieces, k).1),
        forall|i: int, sq: int| 0 <= i < 10 && !bit(mask, sq) ==> #[trigger] bit(det_stage(p, stm, mask, pieces, k).0.bb[i], sq) == bit(p.bb[i], sq),
        forall|sq: int| #[trigger] bit(det_stage(p, stm, mask, pieces, k).0.bb[0], sq) == bit(p.bb[0], sq),
        forall|sq: int| #[trigger] bit(det_stage(p, stm, mask, pieces, k).0.bb[1], sq) == bit(p.bb[1], sq),
    decreases k,
{
    if k > 0 {
        lemma_det_stage_frame(p, stm, mask, pieces, k - 1);
        let (q, rest) = det_stage(p, stm, mask, pieces, k - 1);
        if bit(mask, k - 1) && rest.len() > 0 {
            let t = k - 1;
            assert(Piece::FLAG <= rest[rest.len() - 1] <= Piece::BOMB);
            assert forall|sq: int| #[trigger] bit(1u64 << (t as u64), sq) == (sq == t) by {}
        }
    }
}

/// A stage does the same on a square of two boards that agree there.
proof fn lemma_det_stage_congruent(p: PositionView, p2: PositionView, stm: int, mask: u64, pieces: Seq<usize>, k: int)
    requires
        p.bb.len() == 10,
        p2.bb.len() == 10,
        0 <= stm < 2,
        0 <= k <= 64,
        valid_pieces(pieces),
    ensures
        det_stage(p, stm, mask, pieces, k).1 == det_stage(p2, stm, mask, pieces, k).1,
        forall|sq: int| #[trigger] agree_at(p, p2, sq) ==> agree_at(det_stage(p, stm, mask, pieces, k).0, det_stage(p2, stm, mask, pieces, k).0, sq),
    decreases k,
{
    if k > 0 {
        lemma_det_stage_congruent(p, p2, stm, mask, pieces, k - 1);
        lemma_det_stage_frame(p, stm, mask, pieces, k - 1);
        lemma_det_stage_frame(p2, stm, mask, pieces, k - 1);
        let (q, rest) = det_stage(p, stm, mask, pieces, k - 1);
        let (q2, rest2) = det_stage(p2, stm, mask, pieces, k - 1);
        if bit(mask, k - 1) && rest.len() > 0 {
            let t = k - 1;
            assert(Piece::FLAG <= rest[rest.len() - 1] <= Piece::BOMB);
            assert forall|sq: int| #[trigger] bit(1u64 << (t as u64), sq) == (sq == t) by {}
        }
    }
}

/// The same for a whole stage.
proof fn lemma_stage_facts(p: PositionView, p2: PositionView, stm: int, mask: u64, pieces: Seq<usize>)
    requires
        p.bb.len() == 10,
        p2.bb.len() == 10,
        0 <= stm < 2,
        valid_pieces(pieces),
    ensures
        stage(p, stm, mask, pieces).bb.len() == 10,
        forall|i: int, sq: int| 0 <= i < 10 && !bit(mask, sq) ==> #[trigger] bit(stage(p, stm, mask, pieces).bb[i], sq) == bit(p.bb[i], sq),
        forall|sq: int| #[trigger] bit(stage(p, stm, mask, pieces).bb[0], sq) == bit(p.bb[0], sq),
        forall|sq: int| #[trigger] bit(stage(p, stm, mask, pieces).bb[1], sq) == bit(p.bb[1], sq),
        forall|sq: int| #[trigger] agree_at(p, p2, sq) ==> agree_at(stage(p, stm, mask, pieces), stage(p2, stm, mask, pieces), sq),
{
    lemma_det_stage_frame(p, stm, mask, pieces, 64);
    lemma_det_stage_congruent(p, p2, stm, mask, pieces, 64);
}

/// Each side's unknown pieces get their ranks from that side's lists only:
/// with other lists for blue, red's squares come out the same, and with
/// other lists for red, blue's squares come out the same.
pub proof fn lemma_determinized_sides(
    s: StrategoView,
    ri: Seq<usize>,
    bi: Seq<usize>,
    r: Seq<usize>,
    b: Seq<usize>,
    ri2: Seq<usize>,
    bi2: Seq<usize>,
    r2: Seq<usize>,
    b2: Seq<usize>,
)
    requires
        s.board.bb.len() == 10,
        s.info.initial.len() == 2,
        forall|q: int| !(#[trigger] bit(s.board.bb[0], q) && bit(s.board.bb[1], q)),
        valid_pieces(ri) && valid_pieces(bi) && valid_pieces(r) && valid_pieces(b),
        valid_pieces(ri2) && valid_pieces(bi2) && valid_pieces(r2) && valid_pieces(b2),
    ensures
        forall|i: int, sq: int| 0 <= i < 10 && bit(s.board.bb[0], sq) ==>
            #[trigger] bit(determinized(s, ri, bi, r, b).bb[i], sq) == bit(determinized(s, ri, bi2, r, b2).bb[i], sq),
        forall|i: int, sq: int| 0 <= i < 10 && bit(s.board.bb[1], sq) ==>
            #[trigger] bit(determinized(s, ri, bi, r, b).bb[i], sq) == bit(determinized(s, ri2, bi, r2, b).bb[i], sq),
{
    lemma_determinized_red(s, ri, bi, r, b, bi2, b2);
    lemma_determinized_blue(s, ri, bi, r, b, ri2, r2);
}

proof fn lemma_determinized_red(s: StrategoView, ri: Seq<usize>, bi: Seq<usize>, r: Seq<usize>, b: Seq<usize>, bi2: Seq<usize>, b2: Seq<usize>)
    requires
        s.board.bb.len() == 10,
        s.info.initial.len() == 2,
        forall|q: int| !(#[trigger] bit(s.board.bb[0], q) && bit(s.board.bb[1], q)),
        valid_pieces(ri) && valid_pieces(bi) && valid_pieces(r) && valid_pieces(b),
        valid_pieces(bi2) && valid_pieces(b2),
    ensures
        forall|i: int, sq: int| 0 <= i < 10 && bit(s.board.bb[0], sq) ==>
            #[trigger] bit(determinized(s, ri, bi, r, b).bb[i], sq) == bit(determinized(s, ri, bi2, r, b2).bb[i], sq),
{
    let p0 = s.board;
    let m1 = unmoved_unknown(p0, s.info, 0);
    let p1 = stage(p0, 0, m1, ri);
    lemma_stage_facts(p0, p0, 0, m1, ri);
    let m2 = unmoved_unknown(p1, s.info, 1);
    let p2 = stage(p1, 1, m2, bi);
    let q2 = stage(p1, 1, m2, bi2);
    lemma_stage_facts(p1, p1, 1, m2, bi);
    lemma_stage_facts(p1, p1, 1, m2, bi2);
    assert forall|sq: int| bit(p0.bb[0], sq) implies !#[trigger] bit(m2, sq) by {
        assert(bit(p1.bb[1], sq) == bit(p0.bb[1], sq));
    }
    let m3 = unknown_of(p2, 0);
    let n3 = unknown_of(q2, 0);
    assert forall|sq: int| 0 <= sq < 64 implies (bit(m3, sq) <==> bit(n3, sq)) by {
        if bit(p0.bb[0], sq) {
            assert(!bit(m2, sq));
            assert(bit(p2.bb[8], sq) == bit(p1.bb[8], sq));
            assert(bit(q2.bb[8], sq) == bit(p1.bb[8], sq));
        }
    }
    crate::bitboard::lemma_bits_ext(m3, n3);
    let p3 = stage(p2, 0, m3, r);
    let q3 = stage(q2, 0, m3, r);
    lemma_stage_facts(p2, q2, 0, m3, r);
    lemma_stage_facts(q2, q2, 0, m3, r);
    let m4 = unknown_of(p3, 1);
    let n4 = unknown_of(q3, 1);
    lemma_stage_facts(p3, p3, 1, m4, b);
    lemma_stage_facts(q3, q3, 1, n4, b2);
    assert forall|i: int, sq: int| 0 <= i < 10 && bit(p0.bb[0], sq) implies
        #[trigger] bit(determinized(s, ri, bi, r, b).bb[i], sq) == bit(determinized(s, ri, bi2, r, b2).bb[i], sq) by {
        assert(!bit(m2, sq));
        assert forall|j: int| 0 <= j < 10 implies #[trigger] bit(p2.bb[j], sq) == bit(q2.bb[j], sq) by {
            assert(bit(p2.bb[j], sq) == bit(p1.bb[j], sq));
            assert(bit(q2.bb[j], sq) == bit(p1.bb[j], sq));
        }
        assert(agree_at(p2, q2, sq));
        assert(agree_at(p3, q3, sq));
        assert(bit(p3.bb[1], sq) == bit(p0.bb[1], sq));
        assert(bit(q3.bb[1], sq) == bit(p0.bb[1], sq));
        assert(!bit(m4, sq));
        assert(!bit(n4, sq));
        assert(bit(stage(p3, 1, m4, b).bb[i], sq) == bit(p3.bb[i], sq));
        assert(bit(stage(q3, 1, n4, b2).bb[i], sq) == bit(q3.bb[i], sq));
    }
}

proof fn lemma_determinized_blue(s: StrategoView, ri: Seq<usize>, bi: Seq<usize>, r: Seq<usize>, b: Seq<usize>, ri2: Seq<usize>, r2: Seq<usize>)
    requires
        s.board.bb.len() == 10,
        s.info.initial.len() == 2,
        forall|q: int| !(#[trigger] bit(s.board.bb[0], q) && bit(s.board.bb[1], q)),
        valid_pieces(ri) && valid_pieces(bi) && valid_pieces(r) && valid_pieces(b),
        valid_pieces(ri2) && valid_pieces(r2),
    ensures
        forall|i: int, sq: int| 0 <= i < 10 && bit(s.board.bb[1], sq) ==>
            #[trigger] bit(determinized(s, ri, bi, r, b).bb[i], sq) == bit(determinized(s, ri2, bi, r2, b).bb[i], sq),
{
    let p0 = s.board;
    let m1 = unmoved_unknown(p0, s.info, 0);
    let p1 = stage(p0, 0, m1, ri);
    let q1 = stage(p0, 0, m1, ri2);
    lemma_stage_facts(p0, p0, 0, m1, ri);
    lemma_stage_facts(p0, p0, 0, m1, ri2);
    assert forall|sq: int| bit(p0.bb[1], sq) implies !#[trigger] bit(m1, sq) by {}
    let m2 = unmoved_unknown(p1, s.info, 1);
    let n2 = unmoved_unknown(q1, s.info, 1);
    assert forall|sq: int| 0 <= sq < 64 implies (bit(m2, sq) <==> bit(n2, sq)) by {
        if bit(p0.bb[1], sq) {
            assert(bit(p1.bb[8], sq) == bit(p0.bb[8], sq));
            assert(bit(q1.bb[8], sq) == bit(p0.bb[8], sq));
        }
        assert(bit(p1.bb[1], sq) == bit(p0.bb[1], sq));
        assert(bit(q1.bb[1], sq) == bit(p0.bb[1], sq));
    }
    crate::bitboard::lemma_bits_ext(m2, n2);
    let p2 = stage(p1, 1, m2, bi);
    let q2 = stage(q1, 1, m2, bi);
    lemma_stage_facts(p1, q1, 1, m2, bi);
    lemma_stage_facts(q1, q1, 1, m2, bi);
    let m3 = unknown_of(p2, 0);
    let n3 = unknown_of(q2, 0);
    lemma_stage_facts(p2, p2, 0, m3, r);
    lemma_stage_facts(q2, q2, 0, n3, r2);
    let p3 = stage(p2, 0, m3, r);
    let q3 = stage(q2, 0, n3, r2);
    let m4 = unknown_of(p3, 1);
    let n4 = unknown_of(q3, 1);
    assert forall|sq: int| 0 <= sq < 64 implies (bit(m4, sq) <==> bit(n4, sq)) by {
        if bit(p0.bb[1], sq) {
            assert(!bit(m1, sq));
            assert forall|j: int| 0 <= j < 10 implies #[trigger] bit(p1.bb[j], sq) == bit(q1.bb[j], sq) by {
                assert(bit(p1.bb[j], sq) == bit(p0.bb[j], sq));
                assert(bit(q1.bb[j], sq) == bit(p0.bb[j], sq));
            }
            assert(agree_at(p1, q1, sq));
            assert(agree_at(p2, q2, sq));
            assert(bit(p2.bb[0], sq) == bit(p0.bb[0], sq));
            assert(bit(q2.bb[0], sq) == bit(p0.bb[0], sq));
            assert(!bit(m3, sq) && !bit(n3, sq));
            assert(bit(p3.bb[8], sq) == bit(p2.bb[8], sq));
            assert(bit(q3.bb[8], sq) == bit(q2.bb[8], sq));
        }
        assert(bit(p3.bb[1], sq) == bit(p0.bb[1], sq));
        assert(bit(q3.bb[1], sq) == bit(p0.bb[1], sq));
    }
    crate::bitboard::lemma_bits_ext(m4, n4);
    lemma_stage_facts(p3, q3, 1, m4, b);
    assert forall|i: int, sq: int| 0 <= i < 10 && bit(p0.bb[1], sq) implies
        #[trigger] bit(determinized(s, ri, bi, r, b).bb[i], sq) == bit(determinized(s, ri2, bi, r2, b).bb[i], sq) by {
        assert(!bit(m1, sq));
        assert forall|j: int| 0 <= j < 10 implies #[trigger] bit(p1.bb[j], sq) == bit(q1.bb[j], sq) by {
            assert(bit(p1.bb[j], sq) == bit(p0.bb[j], sq));
            assert(bit(q1.bb[j], sq) == bit(p0.bb[j], sq));
        }
        assert(bit(p2.bb[0], sq) == bit(p0.bb[0], sq));
        assert(bit(q2.bb[0], sq) == bit(p0.bb[0], sq));
        assert(!bit(m3, sq) && !bit(n3, sq));
        assert(agree_at(p1, q1, sq));
        assert(agree_at(p2, q2, sq));
        assert forall|j: int| 0 <= j < 10 implies #[trigger] bit(p3.bb[j], sq) == bit(q3.bb[j], sq) by {
            assert(bit(p3.bb[j], sq) == bit(p2.bb[j], sq));
            assert(bit(q3.bb[j], sq) == bit(q2.bb[j], sq));
        }
        assert(agree_at(p3, q3, sq));
    }
}

proof fn lemma_count_below_mono(mask: u64, a: int, b: int)
    requires
        a <= b,
    ensures
        count_below(mask, a) <= count_below(mask, b),
        bit(mask, a) && a < b ==> count_below(mask, a) < count_below(mask, b),
    decreases b - a,
{
    if a < b {
        lemma_count_below_mono(mask, a, b - 1);
    }
}

/// The pieces that a stage puts on the board come from its list: where a
/// piece bitboard other than the sides' and the unknown piece's changes,
/// that piece is in the list.
proof fn lemma_det_stage_source(p: PositionView, stm: int, mask: u64, pieces: Seq<usize>, k: int)
    requires
        p.bb.len() == 10,
        0 <= stm < 2,
        0 <= k <= 64,
        valid_pieces(pieces),
    ensures
        forall|j: int, sq: int| 2 <= j < 10 && j != Piece::UNKNOWN && #[trigger] bit(det_stage(p, stm, mask, pieces, k).0.bb[j], sq) != bit(p.bb[j], sq)
            ==> pieces.contains(j as usize),
    decreases k,
{
    if k > 0 {
        lemma_det_stage_source(p, stm, mask, pieces, k - 1);
        lemma_det_stage_frame(p, stm, mask, pieces, k - 1);
        lemma_det_stage(p, stm, mask, pieces, k - 1);
        let (q, rest) = det_stage(p, stm, mask, pieces, k - 1);
        if bit(mask, k - 1) && rest.len() > 0 {
            let t = k - 1;
            let x = rest.last();
            assert(pieces[rest.len() - 1] == x);
            assert(Piece::FLAG <= x <= Piece::BOMB);
            assert forall|sq: int| #[trigger] bit(1u64 << (t as u64), sq) == (sq == t) by {}
            assert forall|j: int, sq: int| 2 <= j < 10 && j != Piece::UNKNOWN && #[trigger] bit(det_stage(p, stm, mask, pieces, k).0.bb[j], sq) != bit(p.bb[j], sq)
                implies pieces.contains(j as usize) by {
                if j == x as int && sq == t {
                    assert(pieces[rest.len() - 1] == j as usize);
                } else {
                    assert(bit(det_stage(p, stm, mask, pieces, k).0.bb[j], sq) == bit(q.bb[j], sq));
                }
            }
        }
    }
}

/// A stage with a piece for each of its squares, none of them the unknown
/// piece, leaves none of its squares unknown.
proof fn lemma_det_stage_fills(p: PositionView, stm: int, mask: u64, pieces: Seq<usize>, k: int)
    requires
        p.bb.len() == 10,
        0 <= stm < 2,
        0 <= k <= 64,
        valid_pieces(pieces),
        forall|i: int| 0 <= i < pieces.len() ==> #[trigger] pieces[i] != Piece::UNKNOWN,
        pieces.len() >= count_below(mask, 64),
        forall|sq: int| #[trigger] bit(mask, sq) ==> bit(p.bb[Piece::UNKNOWN as int], sq),
    ensures
        forall|sq: int| 0 <= sq < k && #[trigger] bit(mask, sq) ==> !bit(det_stage(p, stm, mask, pieces, k).0.bb[Piece::UNKNOWN as int], sq),
    decreases k,
{
    if k > 0 {
        lemma_det_stage_fills(p, stm, mask, pieces, k - 1);
        lemma_det_stage_frame(p, stm, mask, pieces, k - 1);
        lemma_det_stage(p, stm, mask, pieces, k - 1);
        let (q, rest) = det_stage(p, stm, mask, pieces, k - 1);
        let t = k - 1;
        assert forall|sq: int| #[trigger] bit(1u64 << (t as u64), sq) == (sq == t) by {}
        if bit(mask, t) {
            lemma_count_below_mono(mask, t, 64);
            assert(rest.len() > 0);
            assert(rest.last() == pieces[rest.len() - 1]);
            // the square is still unknown before its turn
            lemma_det_stage_sq_untouched(p, stm, mask, pieces, k - 1, t);
        }
    }
}

/// A stage has not touched the squares from `k` on yet.
proof fn lemma_det_stage_sq_untouched(p: PositionView, stm: int, mask: u64, pieces: Seq<usize>, k: int, sq: int)
    requires
        p.bb.len() == 10,
        0 <= stm < 2,
        0 <= k <= sq,
        k <= 64,
        valid_pieces(pieces),
    ensures
        agree_at(det_stage(p, stm, mask, pieces, k).0, p, sq),
    decreases k,
{
    if k > 0 {
        lemma_det_stage_sq_untouched(p, stm, mask, pieces, k - 1, sq);
        lemma_det_stage_frame(p, stm, mask, pieces, k - 1);
        let (q, rest) = det_stage(p, stm, mask, pieces, k - 1);
        if bit(mask, k - 1) && rest.len() > 0 {
            let t = k - 1;
            assert(Piece::FLAG <= rest[rest.len() - 1] <= Piece::BOMB);
            assert forall|s2: int| #[trigger] bit(1u64 << (t as u64), s2) == (s2 == t) by {}
        }
    }
}

/// The pieces a stage puts on the board come from its list, and with a
/// piece for each square it leaves none of its squares unknown.
proof fn lemma_stage_sources(p: PositionView, stm: int, mask: u64, pieces: Seq<usize>)
    requires
        p.bb.len() == 10,
        0 <= stm < 2,
        valid_pieces(pieces),
    ensures
        forall|j: int, sq: int| 2 <= j < 10 && j != Piece::UNKNOWN && #[trigger] bit(stage(p, stm, mask, pieces).bb[j], sq) != bit(p.bb[j], sq)
            ==> pieces.contains(j as usize),
        (forall|i: int| 0 <= i < pieces.len() ==> #[trigger] pieces[i] != Piece::UNKNOWN) && pieces.len() >= count_below(mask, 64)
            && (forall|sq: int| #[trigger] bit(mask, sq) ==> bit(p.bb[Piece::UNKNOWN as int], sq))
            ==> forall|sq: int| #[trigger] bit(mask, sq) ==> !bit(stage(p, stm, mask, pieces).bb[Piece::UNKNOWN as int], sq),
{
    lemma_det_stage_source(p, stm, mask, pieces, 64);
    if (forall|i: int| 0 <= i < pieces.len() ==> #[trigger] pieces[i] != Piece::UNKNOWN) && pieces.len() >= count_below(mask, 64)
        && (forall|sq: int| #[trigger] bit(mask, sq) ==> bit(p.bb[Piece::UNKNOWN as int], sq)) {
        lemma_det_stage_fills(p, stm, mask, pieces, 64);
    }
}

/// No item of the list is the unknown piece.
pub open spec fn no_unknown(pieces: Seq<usize>) -> bool {
    forall|i: int| 0 <= i < pieces.len() ==> #[trigger] pieces[i] != Piece::UNKNOWN
}

/// Red's squares get their ranks from red's lists: where a piece appears
/// on a red square, it is one of `ri` or `r`; and when `ri` has a piece
/// for each unmoved unknown square of red and `r` one for each other
/// unknown square of red, no red piece stays unknown.
pub proof fn lemma_determinized_red_pieces(s: StrategoView, ri: Seq<usize>, bi: Seq<usize>, r: Seq<usize>, b: Seq<usize>)
    requires
        s.board.bb.len() == 10,
        s.info.initial.len() == 2,
        forall|q: int| !(#[trigger] bit(s.board.bb[0], q) && bit(s.board.bb[1], q)),
        valid_pieces(ri) && valid_pieces(bi) && valid_pieces(r) && valid_pieces(b),
    ensures
        forall|j: int, sq: int| 2 <= j < 10 && j != Piece::UNKNOWN && bit(s.board.bb[0], sq)
            && #[trigger] bit(determinized(s, ri, bi, r, b).bb[j], sq) != bit(s.board.bb[j], sq)
            ==> ri.contains(j as usize) || r.contains(j as usize),
        no_unknown(ri) && no_unknown(r)
            && ri.len() >= count_below(s.board.bb[Piece::UNKNOWN as int] & s.info.initial[0] & s.board.bb[0], 64)
            && r.len() >= count_below(s.board.bb[Piece::UNKNOWN as int] & !s.info.initial[0] & s.board.bb[0], 64)
            ==> forall|sq: int| #[trigger] bit(s.board.bb[0], sq) ==> !bit(determinized(s, ri, bi, r, b).bb[Piece::UNKNOWN as int], sq),
{
    let p0 = s.board;
    let m1 = unmoved_unknown(p0, s.info, 0);
    let p1 = stage(p0, 0, m1, ri);
    lemma_stage_facts(p0, p0, 0, m1, ri);
    lemma_stage_sources(p0, 0, m1, ri);
    let m2 = unmoved_unknown(p1, s.info, 1);
    let p2 = stage(p1, 1, m2, bi);
    lemma_stage_facts(p1, p1, 1, m2, bi);
    let m3 = unknown_of(p2, 0);
    let p3 = stage(p2, 0, m3, r);
    lemma_stage_facts(p2, p2, 0, m3, r);
    lemma_stage_sources(p2, 0, m3, r);
    let m4 = unknown_of(p3, 1);
    let p4 = stage(p3, 1, m4, b);
    lemma_stage_facts(p3, p3, 1, m4, b);
    assert forall|sq: int| bit(p0.bb[0], sq) implies !#[trigger] bit(m2, sq) && !bit(m4, sq) by {
        assert(bit(p1.bb[1], sq) == bit(p0.bb[1], sq));
        assert(bit(p3.bb[1], sq) == bit(p0.bb[1], sq));
    }
    assert forall|j: int, sq: int| 2 <= j < 10 && j != Piece::UNKNOWN && bit(p0.bb[0], sq)
        && #[trigger] bit(p4.bb[j], sq) != bit(p0.bb[j], sq) implies ri.contains(j as usize) || r.contains(j as usize) by {
        assert(bit(p4.bb[j], sq) == bit(p3.bb[j], sq));
        assert(bit(p2.bb[j], sq) == bit(p1.bb[j], sq));
    }
    let u = p0.bb[Piece::UNKNOWN as int] & !s.info.initial[0] & p0.bb[0];
    if no_unknown(ri) && no_unknown(r) && ri.len() >= count_below(m1, 64) && r.len() >= count_below(u, 64) {
        assert forall|sq: int| 0 <= sq < 64 implies (bit(m3, sq) <==> bit(u, sq)) by {
            assert(bit(p2.bb[0], sq) == bit(p0.bb[0], sq));
            if bit(p0.bb[0], sq) {
                assert(bit(p2.bb[8], sq) == bit(p1.bb[8], sq));
                if !bit(m1, sq) {
                    assert(bit(p1.bb[8], sq) == bit(p0.bb[8], sq));
                }
            }
        }
        crate::bitboard::lemma_bits_ext(m3, u);
        assert forall|sq: int| #[trigger] bit(m3, sq) implies bit(p2.bb[Piece::UNKNOWN as int], sq) by {}
        assert forall|sq: int| #[trigger] bit(m1, sq) implies bit(p0.bb[Piece::UNKNOWN as int], sq) by {}
        assert forall|sq: int| #[trigger] bit(p0.bb[0], sq) implies !bit(p4.bb[Piece::UNKNOWN as int], sq) by {
            assert(bit(p4.bb[8], sq) == bit(p3.bb[8], sq));
            if !bit(m3, sq) {
                assert(bit(p3.bb[8], sq) == bit(p2.bb[8], sq));
                assert(bit(p2.bb[0], sq) == bit(p0.bb[0], sq));
            }
        }
    }
}

/// Blue's squares get their ranks from blue's lists: where a piece appears
/// on a blue square, it is one of `bi` or `b`; and when `bi` has a piece
/// for each unmoved unknown square of blue and `b` one for each other
/// unknown square of blue, no blue piece stays unknown.
pub proof fn lemma_determinized_blue_pieces(s: StrategoView, ri: Seq<usize>, bi: Seq<usize>, r: Seq<usize>, b: Seq<usize>)
    requires
        s.board.bb.len() == 10,
        s.info.initial.len() == 2,
        forall|q: int| !(#[trigger] bit(s.board.bb[0], q) && bit(s.board.bb[1], q)),
        valid_pieces(ri) && valid_pieces(bi) && valid_pieces(r) && valid_pieces(b),
    ensures
        forall|j: int, sq: int| 2 <= j < 10 && j != Piece::UNKNOWN && bit(s.board.bb[1], sq)
            && #[trigger] bit(determinized(s, ri, bi, r, b).bb[j], sq) != bit(s.board.bb[j], sq)
            ==> bi.contains(j as usize) || b.contains(j as usize),
        no_unknown(bi) && no_unknown(b)
            && bi.len() >= count_below(s.board.bb[Piece::UNKNOWN as int] & s.info.initial[1] & s.board.bb[1], 64)
            && b.len() >= count_below(s.board.bb[Piece::UNKNOWN as int] & !s.info.initial[1] & s.board.bb[1], 64)
            ==> forall|sq: int| #[trigger] bit(s.board.bb[1], sq) ==> !bit(determinized(s, ri, bi, r, b).bb[Piece::UNKNOWN as int], sq),
{
    let p0 = s.board;
    let m1 = unmoved_unknown(p0, s.info, 0);
    let p1 = stage(p0, 0, m1, ri);
    lemma_stage_facts(p0, p0, 0, m1, ri);
    let m2 = unmoved_unknown(p1, s.info, 1);
    let p2 = stage(p1, 1, m2, bi);
    lemma_stage_facts(p1, p1, 1, m2, bi);
    lemma_stage_sources(p1, 1, m2, bi);
    let m3 = unknown_of(p2, 0);
    let p3 = stage(p2, 0, m3, r);
    lemma_stage_facts(p2, p2, 0, m3, r);
    let m4 = unknown_of(p3, 1);
    let p4 = stage(p3, 1, m4, b);
    lemma_stage_facts(p3, p3, 1, m4, b);
    lemma_stage_sources(p3, 1, m4, b);
    assert forall|sq: int| bit(p0.bb[1], sq) implies !#[trigger] bit(m1, sq) && !bit(m3, sq) by {
        assert(bit(p2.bb[0], sq) == bit(p0.bb[0], sq));
    }
    assert forall|j: int, sq: int| 2 <= j < 10 && j != Piece::UNKNOWN && bit(p0.bb[1], sq)
        && #[trigger] bit(p4.bb[j], sq) != bit(p0.bb[j], sq) implies bi.contains(j as usize) || b.contains(j as usize) by {
        assert(bit(p3.bb[j], sq) == bit(p2.bb[j], sq));
        assert(bit(p1.bb[j], sq) == bit(p0.bb[j], sq));
    }
    let n2 = p0.bb[Piece::UNKNOWN as int] & s.info.initial[1] & p0.bb[1];
    let u = p0.bb[Piece::UNKNOWN as int] & !s.info.initial[1] & p0.bb[1];
    if no_unknown(bi) && no_unknown(b) && bi.len() >= count_below(n2, 64) && b.len() >= count_below(u, 64) {
        assert forall|sq: int| 0 <= sq < 64 implies (bit(m2, sq) <==> bit(n2, sq)) by {
            assert(bit(p1.bb[1], sq) == bit(p0.bb[1], sq));
            if bit(p0.bb[1], sq) {
                assert(bit(p1.bb[8], sq) == bit(p0.bb[8], sq));
            }
        }
        crate::bitboard::lemma_bits_ext(m2, n2);
        assert forall|sq: int| 0 <= sq < 64 implies (bit(m4, sq) <==> bit(u, sq)) by {
            assert(bit(p3.bb[1], sq) == bit(p0.bb[1], sq));
            if bit(p0.bb[1], sq) {
                assert(bit(p3.bb[8], sq) == bit(p2.bb[8], sq));
                if !bit(m2, sq) {
                    assert(bit(p2.bb[8], sq) == bit(p1.bb[8], sq));
                    assert(bit(p1.bb[8], sq) == bit(p0.bb[8], sq));
                }
            }
        }
        crate::bitboard::lemma_bits_ext(m4, u);
        assert forall|sq: int| #[trigger] bit(m2, sq) implies bit(p1.bb[Piece::UNKNOWN as int], sq) by {}
        assert forall|sq: int| #[trigger] bit(m4, sq) implies bit(p3.bb[Piece::UNKNOWN as int], sq) by {}
        assert forall|sq: int| #[trigger] bit(p0.bb[1], sq) implies !bit(p4.bb[Piece::UNKNOWN as int], sq) by {
            if !bit(m4, sq) {
                assert(bit(p4.bb[8], sq) == bit(p3.bb[8], sq));
                assert(bit(p3.bb[1], sq) == bit(p0.bb[1], sq));
            }
        }
    }
}

} // verus!
