//! What one side knows of the other: which squares still hold pieces of
//! unknown rank, and how many pieces of each rank are unknown.
use crate::bitboard::{bit, count_ones, group_bits, popcount};
use crate::stratego::moves::Move;
use crate::stratego::position::{piece_at, side, Position, PositionView};
use crate::stratego::util::{Flag, Piece};
use vstd::prelude::*;

verus! {

broadcast use group_bits;

/// Keeps track of all legal information,
/// which can be retrieved from the `StrategoState`
///
/// What moves reveal legal information?
/// - moves of absolute distance > 1 (Piece must be Scout)
/// - captures (Piece ranks must be revealed)
#[derive(Clone, Copy)]
pub struct InformationSet {
    unknown: [[usize; 10]; 2],
    bb: [u64; 2],
    initial: [u64; 2],
}

/// The contents of an `InformationSet`.
pub struct InformationView {
    /// For each side and piece, how many pieces of that rank are still unknown.
    pub unknown: Seq<Seq<usize>>,
    /// For each side, the squares of its pieces whose rank is unknown.
    pub bb: Seq<u64>,
    /// For each side, the unknown pieces that have not moved yet.
    pub initial: Seq<u64>,
}

impl View for InformationSet {
    type V = InformationView;

    closed spec fn view(&self) -> InformationView {
        InformationView {
            unknown: Seq::new(2, |s: int| self.unknown[s]@),
            bb: self.bb@,
            initial: self.initial@,
        }
    }
}

/// All pieces of a board, of either side.
pub open spec fn all_pieces(bb: Seq<u64>) -> u64 {
    bb[2] | bb[3] | bb[4] | bb[5] | bb[6] | bb[7] | bb[8] | bb[9]
}

/// Manhattan distance of two squares.
pub open spec fn square_distance(from: int, to: int) -> int {
    let r = from / 8 - to / 8;
    let f = from % 8 - to % 8;
    (if r < 0 { -r } else { r }) + (if f < 0 { -f } else { f })
}

/// `n` copies of `piece`.
pub open spec fn copies(piece: usize, n: usize) -> Seq<usize> {
    Seq::new(n as nat, |i: int| piece)
}

/// The unknown movable pieces of a side, by rank from spy to marshal.
pub open spec fn available_spec(row: Seq<usize>) -> Seq<usize> {
    copies(3, row[3]) + copies(4, row[4]) + copies(5, row[5]) + copies(6, row[6]) + copies(7, row[7])
}

/// The unknown flags, then the unknown bombs of a side.
pub open spec fn available_immovable_spec(row: Seq<usize>) -> Seq<usize> {
    copies(Piece::FLAG, row[Piece::FLAG as int]) + copies(Piece::BOMB, row[Piece::BOMB as int])
}

/// The rank of a piece of side `stm` on `sq` is revealed.
pub open spec fn removed(i: InformationView, stm: int, piece: int, sq: int) -> InformationView {
    InformationView {
        bb: i.bb.update(stm, i.bb[stm] ^ (1u64 << (sq as u64))),
        unknown: i.unknown.update(stm, i.unknown[stm].update(piece, (i.unknown[stm][piece] - 1) as usize)),
        ..i
    }
}

pub open spec fn can_remove(i: InformationView, stm: int, piece: int, sq: int) -> bool {
    &&& 0 <= stm < 2
    &&& 0 <= piece < 10
    &&& 0 <= sq < 64
    &&& i.unknown[stm][piece] > 0
}

/// A capture of a piece whose rank is unknown reveals it.
pub open spec fn reveals_defender(i: InformationView, m: Move, board: PositionView) -> bool {
    m.flag & Flag::CAPTURE != 0 && bit(i.bb[1 - side(board.stm)], m.to as int)
}

/// The information after the opponent's defender (if revealed) is removed.
pub open spec fn after_defender(i: InformationView, m: Move, board: PositionView) -> InformationView {
    if reveals_defender(i, m, board) {
        removed(i, 1 - side(board.stm), piece_at(board.bb, m.to as int), m.to as int)
    } else {
        i
    }
}

/// The information after the moved piece's square is followed, and its
/// rank revealed where the move shows it.
pub open spec fn after_mover(i: InformationView, m: Move, board: PositionView) -> InformationView {
    let stm = side(board.stm);
    let from_bb = 1u64 << (m.from as u64);
    let to_bb = 1u64 << (m.to as u64);
    if !bit(i.bb[stm], m.from as int) {
        i
    } else {
        let i1 = InformationView {
            initial: i.initial.update(stm, if bit(i.initial[stm], m.from as int) { i.initial[stm] ^ from_bb } else { i.initial[stm] }),
            bb: i.bb.update(stm, i.bb[stm] ^ from_bb ^ to_bb),
            ..i
        };
        if m.flag & Flag::CAPTURE != 0 {
            removed(i1, stm, m.piece as int, m.to as int)
        } else if square_distance(m.from as int, m.to as int) > 1 {
            removed(i1, stm, Piece::SCOUT as int, m.to as int)
        } else {
            i1
        }
    }
}

/// The information after move `m` of the side to move of `board`.
pub open spec fn updated(i: InformationView, m: Move, board: PositionView) -> InformationView {
    after_mover(after_defender(i, m, board), m, board)
}

/// What `update` needs to not fail.
pub open spec fn can_update(i: InformationView, m: Move, board: PositionView) -> bool {
    let stm = side(board.stm);
    let i1 = after_defender(i, m, board);
    &&& m.from < 64
    &&& m.to < 64
    &&& reveals_defender(i, m, board) ==> can_remove(i, 1 - stm, piece_at(board.bb, m.to as int), m.to as int)
    &&& bit(i1.bb[stm], m.from as int) ==> {
        &&& m.flag & Flag::CAPTURE != 0 ==> (m.piece < 10 && i1.unknown[stm][m.piece as int] > 0)
        &&& (m.flag & Flag::CAPTURE == 0 && square_distance(m.from as int, m.to as int) > 1) ==> i1.unknown[stm][Piece::SCOUT as int] > 0
    }
}

/// The information set at the start of a game: every piece is unknown.
pub open spec fn initial_information(board: PositionView) -> InformationView {
    let bb = Seq::new(2, |s: int| board.bb[s] & all_pieces(board.bb));
    InformationView {
        unknown: Seq::new(2, |s: int| Seq::new(10, |p: int| if 2 <= p < 10 { popcount(board.bb[s] & board.bb[p]) as usize } else { 0usize })),
        bb,
        initial: bb,
    }
}

impl InformationSet {
    // All pieces are `UNKNOWN`
    pub fn from(board: &Position) -> (res: Self)
        ensures
            res@ == initial_information(board@),
    {
        let mut unknown = [[0usize; 10]; 2];
        let mut bb = [0u64; 2];

        let mut piece: usize = Piece::FLAG;
        while piece <= Piece::BOMB
            invariant
                Piece::FLAG <= piece <= Piece::BOMB + 1,
                forall|s: int, p: int| 0 <= s < 2 && 0 <= p < 10 ==> #[trigger] unknown[s][p] == if 2 <= p < piece {
                    popcount(board@.bb[s] & board@.bb[p]) as usize
                } else {
                    0usize
                },
                forall|s: int, t: int| 0 <= s < 2 ==> (#[trigger] bit(bb[s], t) <==> bit(board@.bb[s], t) && exists|p: int| 2 <= p < piece && #[trigger] bit(board@.bb[p], t)),
            decreases Piece::BOMB + 1 - piece,
        {
            let occ = board.get(piece);
            let mut stm: usize = 0;
            while stm < 2
                invariant
                    Piece::FLAG <= piece <= Piece::BOMB,
                    occ == board@.bb[piece as int],
                    0 <= stm <= 2,
                    forall|s: int, p: int| 0 <= s < 2 && 0 <= p < 10 ==> #[trigger] unknown[s][p] == if 2 <= p < piece || (p == piece && s < stm) {
                        popcount(board@.bb[s] & board@.bb[p]) as usize
                    } else {
                        0usize
                    },
                    forall|s: int, t: int| 0 <= s < 2 ==> (#[trigger] bit(bb[s], t) <==> bit(board@.bb[s], t) && exists|p: int| (2 <= p < piece || (p == piece && s < stm)) && #[trigger] bit(board@.bb[p], t)),
                decreases 2 - stm,
            {
                let side_bb = board.get(stm) & occ;
                let n = count_ones(side_bb);
                let ghost old_unknown = unknown;
                unknown[stm][piece] = unknown[stm][piece] + n as usize;
                let ghost old_bb = bb;
                bb[stm] = bb[stm] | side_bb;
                proof {
                    assert forall|s: int, p: int| 0 <= s < 2 && 0 <= p < 10 implies #[trigger] unknown[s][p] == if 2 <= p < piece || (p == piece && s < stm + 1) {
                        popcount(board@.bb[s] & board@.bb[p]) as usize
                    } else {
                        0usize
                    } by {
                        if s != stm || p != piece {
                            assert(unknown[s][p] == old_unknown[s][p]);
                        }
                    }
                    assert forall|s: int, t: int| 0 <= s < 2 implies (#[trigger] bit(bb[s], t) <==> bit(board@.bb[s], t) && exists|p: int| (2 <= p < piece || (p == piece && s < stm + 1)) && #[trigger] bit(board@.bb[p], t)) by {
                        if s == stm {
                            if bit(side_bb, t) {
                                assert(bit(board@.bb[piece as int], t));
                            }
                            if bit(board@.bb[s], t) && exists|p: int| (2 <= p < piece || (p == piece && s < stm + 1)) && #[trigger] bit(board@.bb[p], t) {
                                if !exists|p: int| (2 <= p < piece || (p == piece && s < stm)) && #[trigger] bit(board@.bb[p], t) {
                                    assert(bit(side_bb, t));
                                }
                            }
                        } else {
                            assert(bb[s] == old_bb[s]);
                        }
                    }
                }
                stm += 1;
            }
            piece += 1;
        }
        let res = InformationSet { unknown, bb, initial: bb };
        proof {
            let i = initial_information(board@);
            assert forall|s: int, t: int| 0 <= s < 2 implies (#[trigger] bit(bb[s], t) <==> bit(i.bb[s], t)) by {
                if bit(bb[s], t) {
                    let p = choose|p: int| 2 <= p < 10 && #[trigger] bit(board@.bb[p], t);
                    assert(bit(all_pieces(board@.bb), t));
                }
                if bit(i.bb[s], t) {
                    assert(bit(all_pieces(board@.bb), t));
                    if bit(board@.bb[2], t) { assert(bit(board@.bb[2], t)); }
                    else if bit(board@.bb[3], t) { assert(bit(board@.bb[3], t)); }
                    else if bit(board@.bb[4], t) { assert(bit(board@.bb[4], t)); }
                    else if bit(board@.bb[5], t) { assert(bit(board@.bb[5], t)); }
                    else if bit(board@.bb[6], t) { assert(bit(board@.bb[6], t)); }
                    else if bit(board@.bb[7], t) { assert(bit(board@.bb[7], t)); }
                    else if bit(board@.bb[8], t) { assert(bit(board@.bb[8], t)); }
                    else { assert(bit(board@.bb[9], t)); }
                }
            }
            assert(bb[0] == i.bb[0]) by {
                crate::bitboard::lemma_bits_ext(bb[0], i.bb[0]);
            }
            assert(bb[1] == i.bb[1]) by {
                crate::bitboard::lemma_bits_ext(bb[1], i.bb[1]);
            }
            assert(res@.bb =~= i.bb);
            assert(res@.initial =~= i.initial);
            assert forall|s: int| 0 <= s < 2 implies res@.unknown[s] =~= i.unknown[s] by {}
            assert(res@.unknown =~= i.unknown);
        }
        res
    }

    fn push_copies(out: &mut Vec<usize>, piece: usize, n: usize)
        ensures
            final(out)@ == old(out)@ + copies(piece, n),
    {
        let mut k: usize = 0;
        while k < n
            invariant
                k <= n,
                out@ == old(out)@ + copies(piece, k),
            decreases n - k,
        {
            out.push(piece);
            k += 1;
            proof {
                assert(out@ =~= old(out)@ + copies(piece, k));
            }
        }
    }

    /// The unknown movable pieces of side `stm`: every spy, scout, miner,
    /// general and marshal whose rank is unknown, by rank.
    pub fn available(&self, stm: usize) -> (res: Vec<usize>)
        requires
            stm < 2,
        ensures
            res@ == available_spec(self@.unknown[stm as int]),
    {
        let mut out: Vec<usize> = Vec::new();
        let mut i: usize = 3;
        while i < 8
            invariant
                3 <= i <= 8,
                stm < 2,
                out@ == if i == 3 {
                    Seq::<usize>::empty()
                } else if i == 4 {
                    copies(3, self@.unknown[stm as int][3])
                } else if i == 5 {
                    copies(3, self@.unknown[stm as int][3]) + copies(4, self@.unknown[stm as int][4])
                } else if i == 6 {
                    copies(3, self@.unknown[stm as int][3]) + copies(4, self@.unknown[stm as int][4]) + copies(5, self@.unknown[stm as int][5])
                } else if i == 7 {
                    copies(3, self@.unknown[stm as int][3]) + copies(4, self@.unknown[stm as int][4]) + copies(5, self@.unknown[stm as int][5]) + copies(6, self@.unknown[stm as int][6])
                } else {
                    available_spec(self@.unknown[stm as int])
                },
            decreases 8 - i,
        {
            InformationSet::push_copies(&mut out, i, self.unknown[stm][i]);
            proof {
                if i == 3 {
                    assert(out@ =~= copies(3, self@.unknown[stm as int][3]));
                }
            }
            i += 1;
        }
        out
    }

    /// The unknown immovable pieces of side `stm`: flags, then bombs.
    pub fn available_immovable(&self, stm: usize) -> (res: Vec<usize>)
        requires
            stm < 2,
        ensures
            res@ == available_immovable_spec(self@.unknown[stm as int]),
    {
        let mut out: Vec<usize> = Vec::new();
        InformationSet::push_copies(&mut out, Piece::FLAG, self.unknown[stm][Piece::FLAG]);
        InformationSet::push_copies(&mut out, Piece::BOMB, self.unknown[stm][Piece::BOMB]);
        proof {
            assert(out@ =~= available_immovable_spec(self@.unknown[stm as int]));
        }
        out
    }

    pub fn get(&self, stm: usize) -> (res: u64)
        requires
            stm < 2,
        ensures
            res == self@.bb[stm as int],
    {
        self.bb[stm]
    }

    pub fn initial(&self, stm: usize) -> (res: u64)
        requires
            stm < 2,
        ensures
            res == self@.initial[stm as int],
    {
        self.initial[stm]
    }

    /// Follows move `mov` of the side to move of `board`, the position before
    /// the move.
    pub fn update(&mut self, mov: &Move, board: &Position)
        requires
            can_update(old(self)@, *mov, board@),
        ensures
            final(self)@ == updated(old(self)@, *mov, board@),
    {
        let stm = if board.stm() { 1usize } else { 0usize };
        let piece = mov.piece as usize;
        let from_bb = 1u64 << (mov.from as u64);
        let to_bb = 1u64 << (mov.to as u64);

        if (mov.flag & Flag::CAPTURE) != 0 && (to_bb & self.bb[1 - stm]) != 0 {
            proof {
                let x = self.bb[1 - stm as int];
                let t = mov.to as u64;
                assert(((1u64 << t) & x) != 0 ==> (x >> t) & 1u64 == 1u64) by (bit_vector)
                    requires t < 64;
            }
            let other = board.piece(mov.to);
            self.remove(1 - stm, other, mov.to);
        } else {
            proof {
                let x = self.bb[1 - stm as int];
                let t = mov.to as u64;
                assert(((1u64 << t) & x) == 0 ==> (x >> t) & 1u64 != 1u64) by (bit_vector)
                    requires t < 64;
            }
        }
        let ghost i1 = self@;
        assert(i1 == after_defender(old(self)@, *mov, board@));

        if (from_bb & self.bb[stm]) == 0 {
            proof {
                let x = self.bb[stm as int];
                let f = mov.from as u64;
                assert(((1u64 << f) & x) == 0 ==> (x >> f) & 1u64 != 1u64) by (bit_vector)
                    requires f < 64;
            }
            return;
        }
        proof {
            let x = self.bb[stm as int];
            let f = mov.from as u64;
            assert(((1u64 << f) & x) != 0 ==> (x >> f) & 1u64 == 1u64) by (bit_vector)
                requires f < 64;
            let y = self.initial[stm as int];
            assert(((y & (1u64 << f)) != 0) == ((y >> f) & 1u64 == 1u64)) by (bit_vector)
                requires f < 64;
        }

        if (self.initial[stm] & from_bb) != 0 {
            self.initial[stm] = self.initial[stm] ^ from_bb;
        }

        self.bb[stm] = self.bb[stm] ^ from_bb;
        self.bb[stm] = self.bb[stm] ^ to_bb;
        proof {
            let stm_i = stm as int;
            let from_bb_s = 1u64 << (mov.from as u64);
            let i2 = InformationView {
                initial: i1.initial.update(stm_i, if bit(i1.initial[stm_i], mov.from as int) { i1.initial[stm_i] ^ from_bb_s } else { i1.initial[stm_i] }),
                bb: i1.bb.update(stm_i, i1.bb[stm_i] ^ from_bb_s ^ (1u64 << (mov.to as u64))),
                ..i1
            };
            assert(self@.initial =~= i2.initial);
            assert(self@.bb =~= i2.bb);
            assert(self@.unknown =~= i2.unknown);
        }

        if (mov.flag & Flag::CAPTURE) != 0 {
            self.remove(stm, piece, mov.to);
        } else if distance(mov.from as i32, mov.to as i32) > 1 {
            self.remove(stm, Piece::SCOUT, mov.to);
        }
    }

    /// The rank of the piece of side `stm` on `sq` is revealed.
    pub fn remove(&mut self, stm: usize, piece: usize, sq: u8)
        requires
            can_remove(old(self)@, stm as int, piece as int, sq as int),
        ensures
            final(self)@ == removed(old(self)@, stm as int, piece as int, sq as int),
    {
        self.bb[stm] = self.bb[stm] ^ (1u64 << (sq as u64));
        self.unknown[stm][piece] = self.unknown[stm][piece] - 1;
        proof {
            let r = removed(old(self)@, stm as int, piece as int, sq as int);
            assert(self@.bb =~= r.bb);
            assert forall|s: int| 0 <= s < 2 implies self@.unknown[s] =~= r.unknown[s] by {}
            assert(self@.unknown =~= r.unknown);
        }
    }
}

/// Manhattan distance of two squares.
fn distance(from: i32, to: i32) -> (res: usize)
    requires
        0 <= from < 64,
        0 <= to < 64,
    ensures
        res == square_distance(from as int, to as int),
{
    proof {
        assert(from >> 3 == from / 8 && from & 7 == from % 8 && to >> 3 == to / 8 && to & 7 == to % 8) by (bit_vector)
            requires 0 <= from < 64, 0 <= to < 64;
    }
    let r = (from >> 3) - (to >> 3);
    let f = (from & 7) - (to & 7);
    let rank = (if r < 0 { -r } else { r }) as usize;
    let file = (if f < 0 { -f } else { f }) as usize;

    rank + file
}

/// A piece that moves is no longer unmoved: after a move of an unknown
/// piece of the side to move, its square of origin leaves the side's
/// unmoved unknown pieces, whatever the move; the side's other unmoved
/// squares and those of the other side stay.
pub proof fn lemma_moved_not_initial(i: InformationView, m: Move, board: PositionView)
    requires
        i.bb.len() == 2,
        i.initial.len() == 2,
        m.from < 64,
        bit(i.bb[side(board.stm)], m.from as int),
    ensures
        ({
            let stm = side(board.stm);
            let n = updated(i, m, board).initial;
            &&& !bit(n[stm], m.from as int)
            &&& forall|sq: int| sq != m.from ==> #[trigger] bit(n[stm], sq) == bit(i.initial[stm], sq)
            &&& n[1 - stm] == i.initial[1 - stm]
        }),
{
    broadcast use group_bits;

    let stm = side(board.stm);
    let i1 = after_defender(i, m, board);
    assert(i1.initial == i.initial);
    assert(bit(i1.bb[stm], m.from as int));
    assert forall|sq: int| #[trigger] bit(1u64 << (m.from as u64), sq) == (sq == m.from) by {}
}

/// How a move changes which squares hold unknown pieces: an unknown piece
/// that moves leaves its square and stays unknown on its new square only
/// after a one-square quiet step (a capture or a long scout move shows its
/// rank); a defender whose rank was unknown is shown by the capture.
pub proof fn lemma_update_unknown_squares(i: InformationView, m: Move, board: PositionView)
    requires
        i.bb.len() == 2,
        i.initial.len() == 2,
        m.from < 64,
        m.to < 64,
        m.from != m.to,
        !bit(i.bb[side(board.stm)], m.to as int),
    ensures
        ({
            let stm = side(board.stm);
            let n = updated(i, m, board).bb;
            &&& bit(i.bb[stm], m.from as int) ==> !bit(n[stm], m.from as int)
                && bit(n[stm], m.to as int) == (m.flag & Flag::CAPTURE == 0 && square_distance(m.from as int, m.to as int) <= 1)
            &&& !bit(i.bb[stm], m.from as int) ==> n[stm] == i.bb[stm]
            &&& m.flag & Flag::CAPTURE != 0 ==> !bit(n[1 - stm], m.to as int)
            &&& m.flag & Flag::CAPTURE == 0 ==> n[1 - stm] == i.bb[1 - stm]
        }),
{
    broadcast use group_bits;

    let stm = side(board.stm);
    assert forall|sq: int| #[trigger] bit(1u64 << (m.from as u64), sq) == (sq == m.from) by {}
    assert forall|sq: int| #[trigger] bit(1u64 << (m.to as u64), sq) == (sq == m.to) by {}
}

} // verus!
