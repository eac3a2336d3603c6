//! The board as bitboards, with the rules of moving and capturing.
use crate::bitboard::{bit, group_bits};
use crate::bitboard::lemma_pop_lowest;
use crate::stratego::attacks::{between_bb, between_squares, orth_adjacent, orth_bb, orthogonal, ranged, rook_reach};
use crate::stratego::moves::{repeats, Move, MoveList, MoveStack, SquareMask};
use crate::stratego::util::{zobrist, Flag, Piece, Zobrist};
use crate::stratego::GameState;
use crate::text::{chars_of, is_numeric, is_numeric_spec};
use vstd::prelude::*;

verus! {

broadcast use group_bits;

/// Board of both sides.
///
/// `bb[0]` and `bb[1]` hold the squares of red and blue, `bb[2..10]` the
/// squares of each kind of piece (see `Piece`).
#[derive(Clone, Copy)]
pub struct Position {
    bb: [u64; 10],
    stm: bool,
    state: GameState,
    hash: u64,
    half: u16,
    attacker: u8,
    last: [SquareMask; 2],
    attacks: u64,
    evading: [bool; 2],
}

/// The contents of a `Position`.
pub struct PositionView {
    /// The ten bitboards.
    pub bb: Seq<u64>,
    /// Side to move: `false` is red, `true` is blue.
    pub stm: bool,
    pub state: GameState,
    /// Zobrist hash of the placement.
    pub hash: u64,
    /// Plies since the last capture.
    pub half: u16,
    /// The piece that made the last capture, 0 after a quiet move.
    pub attacker: u8,
    /// Last move of each side, for the two-squares rule.
    pub last: Seq<SquareMask>,
    /// Squares next to the square that the last move went to.
    pub attacks: u64,
    /// Whether each side's last move was flagged as evading.
    pub evading: Seq<bool>,
}

impl View for Position {
    type V = PositionView;

    closed spec fn view(&self) -> PositionView {
        PositionView {
            bb: self.bb@,
            stm: self.stm,
            state: self.state,
            hash: self.hash,
            half: self.half,
            attacker: self.attacker,
            last: self.last@,
            attacks: self.attacks,
            evading: self.evading@,
        }
    }
}

/// Index of a side as used for `bb`.
pub open spec fn side(stm: bool) -> int {
    if stm {
        1
    } else {
        0
    }
}

/// Adds or removes a piece of side `stm` on `sq`: flips the square in the
/// side's and in the piece's bitboard and in the hash.
pub open spec fn toggled(p: PositionView, stm: int, piece: int, sq: int) -> PositionView {
    PositionView {
        bb: p.bb.update(stm, p.bb[stm] ^ (1u64 << (sq as u64))).update(
            piece,
            p.bb[piece] ^ (1u64 << (sq as u64)),
        ),
        hash: p.hash ^ zobrist(stm, sq, piece),
        ..p
    }
}

/// Toggling the same piece of the same side on the same square twice gives
/// back the position, its hash included.
pub proof fn lemma_toggle_twice(p: PositionView, stm: int, piece: int, sq: int)
    requires
        p.bb.len() == 10,
        0 <= stm < 2,
        Piece::FLAG <= piece <= Piece::BOMB,
        0 <= sq < 64,
    ensures
        toggled(toggled(p, stm, piece, sq), stm, piece, sq) == p,
{
    let k = 1u64 << (sq as u64);
    let z = zobrist(stm, sq, piece);
    let q = toggled(toggled(p, stm, piece, sq), stm, piece, sq);
    let a = p.bb[stm];
    let b = p.bb[piece];
    let h = p.hash;
    assert(a ^ k ^ k == a && b ^ k ^ k == b && h ^ z ^ z == h) by (bit_vector);
    assert(q.bb =~= p.bb);
}

/// The first piece bitboard, from `i` up, that holds `sq`, or `usize::MAX`.
pub open spec fn piece_from(bb: Seq<u64>, sq: int, i: int) -> int
    decreases 10 - i,
{
    if i >= 10 {
        usize::MAX as int
    } else if bit(bb[i], sq) {
        i
    } else {
        piece_from(bb, sq, i + 1)
    }
}

pub proof fn lemma_piece_from_range(bb: Seq<u64>, sq: int, i: int)
    requires
        2 <= i,
    ensures
        (2 <= piece_from(bb, sq, i) < 10 && i <= piece_from(bb, sq, i)) || piece_from(bb, sq, i)
            == usize::MAX,
    decreases 10 - i,
{
    if i < 10 && !bit(bb[i], sq) {
        lemma_piece_from_range(bb, sq, i + 1);
    }
}

/// The piece on `sq`: the lowest piece bitboard that holds it, `usize::MAX`
/// when none does.
pub open spec fn piece_at(bb: Seq<u64>, sq: int) -> int {
    piece_from(bb, sq, 2)
}

/// Outcome of an attack of `piece` on `other`: 1 the attacker wins, 0 both
/// are removed, -1 the attacker is removed. An attacking spy takes the
/// marshal and a miner defuses a bomb; otherwise the higher piece wins.
pub open spec fn battle(piece: int, other: int) -> int {
    if piece == Piece::SPY && other == Piece::MARSHAL {
        1
    } else if piece == Piece::MINER && other == Piece::BOMB {
        1
    } else if piece > other {
        1
    } else if piece == other {
        0
    } else {
        -1
    }
}

/// The record of the last move of the moving side after `m`.
pub open spec fn next_last(l: SquareMask, m: Move) -> SquareMask {
    let back = (l.from == m.to && l.to == m.from) || (bit(l.path, m.to as int) && bit(
        l.path,
        m.from as int,
    ));
    let l1 = if back {
        SquareMask { moves: (l.moves + 1) as u8, ..l }
    } else {
        SquareMask {
            moves: 0,
            path: if m.piece as int == Piece::SCOUT {
                between_bb(m.from, m.to)
            } else {
                0
            },
            ..l
        }
    };
    SquareMask { from: m.from, to: m.to, ..l1 }
}

/// Moving back to the previous square, or along the stored scout path.
pub open spec fn moves_back(l: SquareMask, m: Move) -> bool {
    (l.from == m.to && l.to == m.from) || (bit(l.path, m.to as int) && bit(l.path, m.from as int))
}

/// The state after a capture, from the view of the side `stm` that captured.
pub open spec fn capture_state(p: PositionView, stm: int, other: int) -> GameState {
    let immovable = p.bb[Piece::FLAG as int] | p.bb[Piece::BOMB as int];
    if other == Piece::FLAG {
        GameState::Win
    } else if ((p.bb[0] | p.bb[1]) ^ immovable) == 0 {
        GameState::Draw
    } else if (p.bb[stm] & !immovable) == 0 {
        GameState::Loss
    } else if (p.bb[1 - stm] & !immovable) == 0 {
        GameState::Win
    } else {
        p.state
    }
}

/// The position after `m` is played.
pub open spec fn made(p: PositionView, m: Move) -> PositionView {
    let stm = side(p.stm);
    let piece = m.piece as int;
    let p1 = PositionView {
        stm: !p.stm,
        last: p.last.update(stm, next_last(p.last[stm], m)),
        attacks: orth_bb(m.to as int),
        evading: p.evading.update(stm, m.flag & Flag::EVADING != 0),
        ..p
    };
    let p2 = if bit(p.bb[Piece::UNKNOWN as int], m.from as int) {
        toggled(p1, stm, Piece::UNKNOWN as int, m.from as int)
    } else {
        toggled(p1, stm, piece, m.from as int)
    };
    if m.flag & Flag::CAPTURE == 0 {
        PositionView {
            half: (p.half + 1) as u16,
            attacker: 0,
            ..toggled(p2, stm, piece, m.to as int)
        }
    } else {
        let p3 = PositionView { half: 0, attacker: m.piece, ..p2 };
        let other = piece_at(p3.bb, m.to as int);
        let outcome = battle(piece, other);
        let p4 = if outcome < 0 {
            p3
        } else if outcome == 0 {
            toggled(p3, 1 - stm, other, m.to as int)
        } else {
            toggled(toggled(p3, stm, piece, m.to as int), 1 - stm, other, m.to as int)
        };
        PositionView { state: capture_state(p4, stm, other), ..p4 }
    }
}

/// What `make` needs of a move to not fail.
pub open spec fn can_make(p: PositionView, m: Move) -> bool {
    &&& m.from < 64
    &&& m.to < 64
    &&& Piece::FLAG <= m.piece <= Piece::BOMB
    &&& moves_back(p.last[side(p.stm)], m) ==> p.last[side(p.stm)].moves < u8::MAX
    &&& m.flag & Flag::CAPTURE != 0 ==> m.piece != Piece::UNKNOWN
    &&& m.flag & Flag::CAPTURE == 0 ==> p.half < u16::MAX
}

pub open spec fn lakes() -> u64 {
    0x2424000000u64
}

/// Squares that block movement: all pieces and the lakes.
pub open spec fn occupied(p: PositionView) -> u64 {
    p.bb[0] | p.bb[1] | lakes()
}

/// `t` is next to a piece of side `s`.
pub open spec fn adjacent_to_side(p: PositionView, s: int, t: int) -> bool {
    exists|u: int| bit(p.bb[s], u) && #[trigger] orth_adjacent(u, t)
}

/// The square that the side to move's last move started from, as a bitboard.
pub open spec fn last_from_mask(p: PositionView) -> u64 {
    let l = p.last[side(p.stm)];
    if l.from != u8::MAX {
        1u64 << (l.from as u64)
    } else {
        0
    }
}

/// Squares that the side to move may not go back to on a third repetition.
pub open spec fn repeat_mask(p: PositionView) -> u64 {
    let l = p.last[side(p.stm)];
    if l.moves == 2 {
        l.path | last_from_mask(p)
    } else {
        0
    }
}

/// `t` is in the attack mask of a `piece` of the side to move on `from`: its
/// steps (a scout slides), without the squares of the two-squares rule for
/// the piece that moved last.
pub open spec fn attack_bit(p: PositionView, piece: int, from: int, t: int) -> bool {
    let base = if piece == Piece::SCOUT {
        rook_reach(from, t, occupied(p))
    } else {
        orth_adjacent(from, t)
    };
    let extra = p.last[side(p.stm)].to == from && bit(repeat_mask(p), t);
    0 <= t < 64 && base && !extra
}

/// The hash after a quiet move of `piece` of the side to move from `from` to `t`.
pub open spec fn quiet_hash(p: PositionView, piece: int, from: int, t: int) -> u64 {
    p.hash ^ zobrist(side(p.stm), from, piece) ^ zobrist(side(p.stm), t, piece)
}

/// A quiet move to `t` that is forbidden because the opponent evaded and it
/// would repeat an earlier position.
pub open spec fn repeated(p: PositionView, stack: Seq<u64>, piece: int, from: int, t: int) -> bool {
    let stm = side(p.stm);
    &&& p.evading[1 - stm]
    &&& adjacent_to_side(p, 1 - stm, t)
    &&& !bit(last_from_mask(p), t)
    &&& repeats(stack, p.half as int, quiet_hash(p, piece, from, t))
}

pub open spec fn quiet_target(p: PositionView, stack: Seq<u64>, piece: int, from: int, t: int) -> bool {
    &&& attack_bit(p, piece, from, t)
    &&& !bit(occupied(p), t)
    &&& !repeated(p, stack, piece, from, t)
}

pub open spec fn capture_target(p: PositionView, piece: int, from: int, t: int) -> bool {
    &&& attack_bit(p, piece, from, t)
    &&& bit(p.bb[1 - side(p.stm)], t)
    &&& !bit(lakes(), t)
}

/// The flag of a quiet move from `from`: evading when the opponent's last move
/// went next to it.
pub open spec fn quiet_flag(p: PositionView, from: int) -> u8 {
    if bit(p.attacks, from) {
        Flag::EVADING
    } else {
        Flag::QUIET
    }
}

/// A move that `gen` generates: a spy, scout, miner, general or marshal of the
/// side to move steps (a scout slides) to a free square or captures a piece
/// of the opponent, within the two-squares rule and the rule against
/// repeating positions.
pub open spec fn legal(p: PositionView, stack: Seq<u64>, m: Move) -> bool {
    let stm = side(p.stm);
    let piece = m.piece as int;
    let from = m.from as int;
    let to = m.to as int;
    &&& p.state == GameState::Ongoing
    &&& Piece::SPY <= piece <= Piece::MARSHAL
    &&& from < 64
    &&& bit(p.bb[piece], from)
    &&& bit(p.bb[stm], from)
    &&& {
        ||| m.flag == quiet_flag(p, from) && quiet_target(p, stack, piece, from, to)
        ||| m.flag == Flag::CAPTURE && capture_target(p, piece, from, to)
    }
}

/// The order of generated moves: by piece, square of origin, quiet moves
/// before captures, target square.
pub open spec fn gen_key(m: Move) -> int {
    ((m.piece as int * 64 + m.from as int) * 2 + if m.flag == Flag::CAPTURE {
        1int
    } else {
        0int
    }) * 64 + m.to as int
}

/// `moves` is ordered strictly by `gen_key`.
pub open spec fn gen_sorted(moves: Seq<Move>) -> bool {
    forall|i: int, j: int| 0 <= i < j < moves.len() ==> gen_key(#[trigger] moves[i]) < gen_key(#[trigger] moves[j])
}

/// What `gen` needs of a position to not fail.
pub open spec fn can_gen(p: PositionView) -> bool {
    let l = p.last[side(p.stm)];
    l.from < 64 || l.from == u8::MAX
}



/// The position before any piece is placed.
pub open spec fn empty_position() -> PositionView {
    PositionView {
        bb: Seq::new(10, |i: int| 0u64),
        stm: false,
        state: GameState::Ongoing,
        hash: 0,
        half: 0,
        attacker: 0,
        last: Seq::new(2, |i: int| SquareMask { moves: 0, from: u8::MAX, to: u8::MAX, path: 0 }),
        attacks: 0,
        evading: Seq::new(2, |i: int| false),
    }
}

/// The piece that a symbol of the notation stands for, in either case; -1
/// for other characters.
pub open spec fn symbol_piece(c: char) -> int {
    if c == 'F' || c == 'f' {
        2
    } else if c == 'S' || c == 's' {
        3
    } else if c == 'C' || c == 'c' {
        4
    } else if c == 'D' || c == 'd' {
        5
    } else if c == 'G' || c == 'g' {
        6
    } else if c == 'M' || c == 'm' {
        7
    } else if c == 'X' || c == 'x' {
        8
    } else if c == 'B' || c == 'b' {
        9
    } else {
        -1
    }
}

/// Reading the board part of a notation: the position so far, the file and
/// the rank of the next square.
pub struct NotationState {
    pub pos: PositionView,
    pub file: u32,
    pub rank: u32,
}

/// Reads one character of the board part. A digit skips that many squares,
/// `/` starts the next lower rank, a symbol places a piece (lower case for
/// blue). `None` where reading fails.
pub open spec fn notation_step(st: Option<NotationState>, c: char) -> Option<NotationState> {
    match st {
        None => None,
        Some(s) => {
            if is_numeric_spec(c) {
                let f = s.file + (c as u32 - '0' as u32);
                if f > u32::MAX {
                    None
                } else {
                    Some(NotationState { file: f as u32, ..s })
                }
            } else if c == '/' {
                if s.rank == 0 {
                    None
                } else {
                    Some(NotationState { file: 0, rank: (s.rank - 1) as u32, ..s })
                }
            } else {
                let piece = symbol_piece(c);
                let sq = s.rank * 8 + s.file;
                if piece < 0 || sq > u32::MAX || (sq as u8) >= 64 || s.file == u32::MAX {
                    None
                } else {
                    let stm = if 'a' <= c <= 'z' { 1int } else { 0int };
                    Some(NotationState {
                        pos: toggled(s.pos, stm, piece, (sq as u8) as int),
                        file: (s.file + 1) as u32,
                        ..s
                    })
                }
            }
        }
    }
}

/// Reads the board part of a notation, starting on the eighth rank.
pub open spec fn read_board(chars: Seq<char>) -> Option<NotationState>
    decreases chars.len(),
{
    if chars.len() == 0 {
        Some(NotationState { pos: empty_position(), file: 0, rank: 7 })
    } else {
        notation_step(read_board(chars.drop_last()), chars.last())
    }
}

/// Index of the first space, or the length.
pub open spec fn first_space(chars: Seq<char>) -> int
    decreases chars.len(),
{
    if chars.len() == 0 {
        0
    } else if chars[0] == ' ' {
        0
    } else {
        1 + first_space(chars.drop_first())
    }
}

/// The position of a notation like `d2f4/bbg4c/1m3dsc/8/8/BD3M1G/F5SD/1BCC4 r`:
/// the board from the eighth rank down, upper case for red, then the side to
/// move (`r` for red, anything else for blue).
pub open spec fn read_notation(chars: Seq<char>) -> Option<PositionView> {
    let i = first_space(chars);
    if i >= chars.len() {
        None
    } else {
        match read_board(chars.take(i)) {
            None => None,
            Some(st) => {
                let rest = chars.skip(i + 1);
                let second = rest.take(first_space(rest));
                Some(PositionView { stm: second != seq!['r'], ..st.pos })
            }
        }
    }
}

proof fn lemma_read_board_none(chars: Seq<char>, i: int, j: int)
    requires
        0 <= i <= j <= chars.len(),
        read_board(chars.take(i)) is None,
        j == first_space(chars) < chars.len(),
    ensures
        read_board(chars.take(j)) is None,
        read_notation(chars) is None,
{
    lemma_read_board_none_up(chars, i, j);
}

proof fn lemma_read_board_none_up(chars: Seq<char>, i: int, j: int)
    requires
        0 <= i <= j <= chars.len(),
        read_board(chars.take(i)) is None,
    ensures
        read_board(chars.take(j)) is None,
    decreases j - i,
{
    if j > i {
        lemma_read_board_none_up(chars, i, j - 1);
        assert(chars.take(j).drop_last() =~= chars.take(j - 1));
    }
}

proof fn lemma_first_space(chars: Seq<char>)
    ensures
        0 <= first_space(chars) <= chars.len(),
        forall|j: int| 0 <= j < first_space(chars) ==> chars[j] != ' ',
        first_space(chars) < chars.len() ==> chars[first_space(chars)] == ' ',
    decreases chars.len(),
{
    if chars.len() > 0 && chars[0] != ' ' {
        lemma_first_space(chars.drop_first());
        assert forall|j: int| 0 <= j < first_space(chars) implies chars[j] != ' ' by {
            if j > 0 {
                assert(chars[j] == chars.drop_first()[j - 1]);
            }
        }
    }
}

proof fn lemma_first_space_unique(chars: Seq<char>, i: int)
    requires
        0 <= i <= chars.len(),
        forall|j: int| 0 <= j < i ==> chars[j] != ' ',
        i < chars.len() ==> chars[i] == ' ',
    ensures
        first_space(chars) == i,
    decreases chars.len(),
{
    if chars.len() > 0 && i > 0 {
        lemma_first_space_unique(chars.drop_first(), i - 1);
    }
}

fn find_space(chars: &Vec<char>, start: usize) -> (res: usize)
    requires
        start <= chars@.len(),
    ensures
        res == start + first_space(chars@.skip(start as int)),
{
    let mut i = start;
    while i < chars.len() && chars[i] != ' '
        invariant
            start <= i <= chars@.len(),
            forall|j: int| start <= j < i ==> chars@[j] != ' ',
        decreases chars@.len() - i,
    {
        i += 1;
    }
    proof {
        lemma_first_space_unique(chars@.skip(start as int), i - start);
    }
    i
}

/// `moves` extends `old` by moves of `piece` from `from` with `flag`, one to each
/// square of `targets`, in ascending order of the target.
pub open spec fn pushed_targets(old: Seq<Move>, moves: Seq<Move>, from: u8, targets: u64, flag: u8, piece: u8) -> bool {
    &&& moves.len() >= old.len()
    &&& moves.subrange(0, old.len() as int) == old
    &&& forall|i: int| old.len() <= i < moves.len() ==> {
        let m = #[trigger] moves[i];
        m.from == from && m.flag == flag && m.piece == piece && bit(targets, m.to as int)
    }
    &&& forall|t: int| #[trigger] bit(targets, t) ==> exists|i: int| old.len() <= i < moves.len() && (#[trigger] moves[i]).to == t
    &&& forall|i: int, j: int| old.len() <= i < j < moves.len() ==> (#[trigger] moves[i]).to < (#[trigger] moves[j]).to
}

fn push_targets(moves: &mut MoveList, from: u8, targets: u64, flag: u8, piece: u8)
    ensures
        pushed_targets(old(moves)@, final(moves)@, from, targets, flag, piece),
{
    let ghost start = moves@;
    let mut bb = targets;
    let ghost mut done: int = 0;
    while bb != 0
        invariant
            0 <= done <= 64,
            forall|u: int| #[trigger] bit(bb, u) <==> bit(targets, u) && u >= done,
            moves@.len() >= start.len(),
            moves@.subrange(0, start.len() as int) == start,
            forall|i: int| start.len() <= i < moves@.len() ==> {
                let m = #[trigger] moves@[i];
                m.from == from && m.flag == flag && m.piece == piece && bit(targets, m.to as int) && m.to < done
            },
            forall|t: int| #[trigger] bit(targets, t) && t < done ==> exists|i: int| start.len() <= i < moves@.len() && (#[trigger] moves@[i]).to == t,
            forall|i: int, j: int| start.len() <= i < j < moves@.len() ==> (#[trigger] moves@[i]).to < (#[trigger] moves@[j]).to,
        decreases bb,
    {
        proof {
            lemma_pop_lowest(bb);
        }
        let ghost old_bb = bb;
        let ghost before = moves@;
        let to = bb.trailing_zeros() as u8;
        bb = bb & bb.wrapping_sub(1);
        moves.push(from, to, flag, piece);
        proof {
            assert(moves@.subrange(0, start.len() as int) =~= start) by {
                assert(before.subrange(0, start.len() as int) == start);
            }
            assert forall|t: int| #[trigger] bit(targets, t) && t < to + 1 implies exists|i: int| start.len() <= i < moves@.len() && (#[trigger] moves@[i]).to == t by {
                if t == to {
                    assert(moves@[before.len() as int].to == t);
                } else {
                    assert(t < done || bit(old_bb, t));
                    let i = choose|i: int| start.len() <= i < before.len() && (#[trigger] before[i]).to == t;
                    assert(moves@[i] == before[i]);
                }
            }
            assert forall|u: int| #[trigger] bit(bb, u) <==> bit(targets, u) && u >= to + 1 by {}
            done = to + 1;
        }
    }
    proof {
        assert forall|t: int| #[trigger] bit(targets, t) implies exists|i: int| start.len() <= i < moves@.len() && (#[trigger] moves@[i]).to == t by {
            assert(!bit(bb, t));
        }
    }
}

impl Position {
    /// Piece symbols, red (upper case) then blue (lower case), in the order of
    /// the piece bitboards from `FLAG` up.
    pub const SYMBOLS: [char; 16] = [
        'F', 'S', 'C', 'D', 'G', 'M', 'X', 'B', 'f', 's', 'c', 'd', 'g', 'm', 'x', 'b',
    ];

    pub const LAKES: u64 = 0x2424000000;


    /// Reads a notation (see `read_notation`); `None` where it cannot be read.
    fn read(notation: &str) -> (res: Option<Self>)
        ensures
            match read_notation(notation@) {
                None => res is None,
                Some(p) => res matches Some(pos) && pos@ == p,
            },
    {
        let chars = chars_of(notation);
        let mut pos = Position {
            bb: [0u64; 10],
            stm: false,
            state: GameState::Ongoing,
            hash: 0,
            half: 0,
            attacker: 0,
            last: [SquareMask::default(), SquareMask::default()],
            attacks: 0,
            evading: [false; 2],
        };
        proof {
            assert(pos@.bb =~= empty_position().bb);
            assert(pos@.last =~= empty_position().last);
            assert(pos@.evading =~= empty_position().evading);
        }
        let end = find_space(&chars, 0);
        proof {
            assert(chars@.skip(0) =~= chars@);
        }
        if end >= chars.len() {
            return None;
        }
        let mut file: u32 = 0;
        let mut rank: u32 = 7;
        let mut i: usize = 0;
        while i < end
            invariant
                chars@ == notation@,
                end < chars@.len(),
                end == first_space(chars@),
                0 <= i <= end,
                read_board(chars@.take(i as int)) == Some(NotationState { pos: pos@, file, rank }),
            decreases end - i,
        {
            let c = chars[i];
            proof {
                assert(chars@.take(i + 1).drop_last() =~= chars@.take(i as int));
                assert(chars@.take(i + 1).last() == c);
            }
            if is_numeric(c) {
                let d = (c as u32) - ('0' as u32);
                assert(is_numeric_spec(c));
                assert(d == c as u32 - '0' as u32);
                if file > u32::MAX - d {
                    proof {
                        lemma_read_board_none(chars@, i + 1, end as int);
                    }
                    return None;
                }
                file = file + d;
            } else if c == '/' {
                if rank == 0 {
                    proof {
                        lemma_read_board_none(chars@, i + 1, end as int);
                    }
                    return None;
                }
                file = 0;
                rank = rank - 1;
            } else {
                let piece: usize = if c == 'F' || c == 'f' {
                    2
                } else if c == 'S' || c == 's' {
                    3
                } else if c == 'C' || c == 'c' {
                    4
                } else if c == 'D' || c == 'd' {
                    5
                } else if c == 'G' || c == 'g' {
                    6
                } else if c == 'M' || c == 'm' {
                    7
                } else if c == 'X' || c == 'x' {
                    8
                } else if c == 'B' || c == 'b' {
                    9
                } else {
                    proof {
                        lemma_read_board_none(chars@, i + 1, end as int);
                    }
                    return None;
                };
                if rank > (u32::MAX - file) / 8 {
                    proof {
                        lemma_read_board_none(chars@, i + 1, end as int);
                    }
                    return None;
                }
                let sq = (rank * 8 + file) as u8;
                if sq >= 64 || file == u32::MAX {
                    proof {
                        lemma_read_board_none(chars@, i + 1, end as int);
                    }
                    return None;
                }
                let stm: usize = if c >= 'a' && c <= 'z' { 1 } else { 0 };
                pos.toggle(stm, piece, sq);
                file = file + 1;
            }
            i += 1;
        }
        proof {
            assert(chars@.take(end as int) =~= chars@.take(first_space(chars@)));
        }
        let second_end = find_space(&chars, end + 1);
        proof {
            lemma_first_space(chars@.skip(end + 1));
        }
        let second_is_red = second_end - end == 2 && chars[end + 1] == 'r';
        pos.stm = !second_is_red;
        proof {
            let rest = chars@.skip(end + 1);
            lemma_first_space(rest);
            let second = rest.take(first_space(rest));
            assert(second.len() == second_end - end - 1);
            if second_is_red {
                assert(second =~= seq!['r']);
            } else if second.len() == 1 {
                assert(second[0] == chars@[end + 1]);
            }
            assert(pos@ == PositionView { stm: second != seq!['r'], ..read_board(chars@.take(end as int)).unwrap().pos });
        }
        Some(pos)
    }

    /// The position of a notation (see `read_notation`).
    pub fn from(notation: &str) -> (res: Self)
        requires
            read_notation(notation@) is Some,
        ensures
            res@ == read_notation(notation@).unwrap(),
    {
        match Position::read(notation) {
            Some(pos) => pos,
            None => {
                proof {
                    assert(false);
                }
                Position {
                    bb: [0u64; 10],
                    stm: false,
                    state: GameState::Ongoing,
                    hash: 0,
                    half: 0,
                    attacker: 0,
                    last: [SquareMask::default(), SquareMask::default()],
                    attacks: 0,
                    evading: [false; 2],
                }
            }
        }
    }

    /// The sequences of the view have the lengths of the arrays.
    pub proof fn lemma_lengths(&self)
        ensures
            self@.bb.len() == 10,
            self@.last.len() == 2,
            self@.evading.len() == 2,
    {
    }

    /// The position of a notation, or `None` where the notation cannot be
    /// read (where `from` would fail).
    pub fn try_from(notation: &str) -> (res: Option<Self>)
        ensures
            match read_notation(notation@) {
                None => res is None,
                Some(p) => res matches Some(pos) && pos@ == p,
            },
    {
        match Position::read(notation) {
            Some(_) => Some(Position::from(notation)),
            None => None,
        }
    }

    pub fn stm(&self) -> (res: bool)
        ensures
            res == self@.stm,
    {
        self.stm
    }

    pub fn game_state(&self) -> (res: GameState)
        ensures
            res == self@.state,
    {
        self.state
    }

    pub fn set_game_state(&mut self, state: GameState)
        ensures
            final(self)@ == (PositionView { state, ..old(self)@ }),
    {
        self.state = state;
    }

    pub fn game_over(&self) -> (res: bool)
        ensures
            res == (self@.state != GameState::Ongoing),
    {
        self.state != GameState::Ongoing
    }

    pub fn hash(&self) -> (res: u64)
        ensures
            res == self@.hash,
    {
        self.hash
    }

    pub fn half(&self) -> (res: usize)
        ensures
            res == self@.half,
    {
        self.half as usize
    }

    /// Bitboard `index`: a side (0 or 1) or a kind of piece.
    pub fn get(&self, index: usize) -> (res: u64)
        requires
            index < 10,
        ensures
            res == self@.bb[index as int],
    {
        self.bb[index]
    }

    /// The record of side `stm`'s last move.
    pub fn last(&self, stm: usize) -> (res: SquareMask)
        requires
            stm < 2,
        ensures
            res == self@.last[stm as int],
    {
        self.last[stm]
    }

    /// Adds or removes a piece of side `stm` on `sq`.
    pub fn toggle(&mut self, stm: usize, piece: usize, sq: u8)
        requires
            stm < 2,
            Piece::FLAG <= piece <= Piece::BOMB,
            sq < 64,
        ensures
            final(self)@ == toggled(old(self)@, stm as int, piece as int, sq as int),
    {
        let bb = 1u64 << (sq as u64);

        self.hash = self.hash ^ Zobrist::get(stm, sq as usize, piece);

        self.bb[stm] = self.bb[stm] ^ bb;
        self.bb[piece] = self.bb[piece] ^ bb;
        proof {
            assert(self@.bb =~= toggled(old(self)@, stm as int, piece as int, sq as int).bb);
        }
    }

    /// The piece on `sq`, `usize::MAX` on an empty square.
    pub fn piece(&self, sq: u8) -> (res: usize)
        requires
            sq < 64,
        ensures
            res == piece_at(self@.bb, sq as int),
    {
        let bb = 1u64 << (sq as u64);
        let mut i: usize = 2;
        while i < 10
            invariant
                2 <= i <= 10,
                sq < 64,
                bb == 1u64 << (sq as u64),
                piece_from(self@.bb, sq as int, 2) == piece_from(self@.bb, sq as int, i as int),
            decreases 10 - i,
        {
            if (self.bb[i] & bb) != 0 {
                proof {
                    assert(bit(self.bb[i as int], sq as int)) by {
                        let x = self.bb[i as int];
                        let s = sq as u64;
                        assert((x & (1u64 << s)) != 0 ==> (x >> s) & 1u64 == 1u64) by (bit_vector)
                            requires s < 64;
                    }
                }
                return i;
            }
            proof {
                let x = self.bb[i as int];
                let s = sq as u64;
                assert((x & (1u64 << s)) == 0 ==> (x >> s) & 1u64 != 1u64) by (bit_vector)
                    requires s < 64;
            }
            i += 1;
        }
        usize::MAX
    }


    /// Squares next to a piece of side `stm`.
    fn attacks(&self, stm: usize) -> (res: u64)
        requires
            stm < 2,
        ensures
            forall|t: int| 0 <= t < 64 ==> (#[trigger] bit(res, t) <==> adjacent_to_side(self@, stm as int, t)),
    {
        let mut bb = self.bb[stm];
        let mut attacks: u64 = 0;
        let ghost all = self.bb[stm as int];
        let ghost mut done: int = 0;
        while bb != 0
            invariant
                stm < 2,
                all == self@.bb[stm as int],
                0 <= done <= 64,
                forall|u: int| #[trigger] bit(bb, u) <==> bit(all, u) && u >= done,
                forall|t: int| 0 <= t < 64 ==> (#[trigger] bit(attacks, t) <==> exists|u: int|
                    bit(all, u) && u < done && #[trigger] orth_adjacent(u, t)),
            decreases bb,
        {
            proof {
                lemma_pop_lowest(bb);
            }
            let ghost old_bb = bb;
            let sq = bb.trailing_zeros() as u8;
            bb = bb & bb.wrapping_sub(1);
            let a = orthogonal(sq as usize);
            proof {
                let old_attacks = attacks;
                assert forall|t: int| 0 <= t < 64 implies (#[trigger] bit(attacks | a, t) <==> exists|u: int|
                    bit(all, u) && u < sq + 1 && #[trigger] orth_adjacent(u, t)) by {
                    if bit(attacks | a, t) {
                        if bit(a, t) {
                            assert(bit(all, sq as int) && orth_adjacent(sq as int, t));
                        }
                    } else {
                        assert forall|u: int| bit(all, u) && u < sq + 1 implies !#[trigger] orth_adjacent(u, t) by {
                            if u < done {
                            } else if u < sq {
                                assert(bit(old_bb, u));
                            }
                        }
                    }
                }
                assert forall|u: int| #[trigger] bit(bb, u) <==> bit(all, u) && u >= sq + 1 by {
                }
                done = sq + 1;
            }
            attacks = attacks | a;
        }
        proof {
            assert forall|t: int| 0 <= t < 64 implies (#[trigger] bit(attacks, t) <==> adjacent_to_side(self@, stm as int, t)) by {
                if adjacent_to_side(self@, stm as int, t) {
                    let u = choose|u: int| bit(self@.bb[stm as int], u) && #[trigger] orth_adjacent(u, t);
                    assert(!bit(bb, u));
                }
            }
        }
        attacks
    }


    /// The squares of `bb` that a quiet move of `piece` from `from` to them
    /// would repeat a position of the last `half` plies.
    fn repetition(&self, stack: &MoveStack, stm: usize, from: u8, piece: usize, bb: u64) -> (res: u64)
        requires
            stm == side(self@.stm),
            from < 64,
            Piece::FLAG <= piece <= Piece::BOMB,
        ensures
            forall|t: int| #[trigger] bit(res, t) <==> bit(bb, t) && repeats(stack@, self@.half as int, quiet_hash(self@, piece as int, from as int, t)),
    {
        let hash = self.hash ^ Zobrist::get(stm, from as usize, piece);

        let mut repetitions: u64 = 0;
        let mut rest = bb;
        let ghost mut done: int = 0;
        while rest != 0
            invariant
                stm == side(self@.stm),
                from < 64,
                Piece::FLAG <= piece <= Piece::BOMB,
                hash == self@.hash ^ zobrist(stm as int, from as int, piece as int),
                0 <= done <= 64,
                forall|u: int| #[trigger] bit(rest, u) <==> bit(bb, u) && u >= done,
                forall|t: int| #[trigger] bit(repetitions, t) <==> bit(bb, t) && t < done && repeats(stack@, self@.half as int, quiet_hash(self@, piece as int, from as int, t)),
            decreases rest,
        {
            proof {
                lemma_pop_lowest(rest);
            }
            let ghost old_rest = rest;
            let sq = rest.trailing_zeros() as u8;
            rest = rest & rest.wrapping_sub(1);
            let ghost old_reps = repetitions;
            if stack.repetition(self.half(), hash ^ Zobrist::get(stm, sq as usize, piece)) {
                repetitions = repetitions | (1u64 << (sq as u64));
            }
            proof {
                assert forall|t: int| #[trigger] bit(repetitions, t) <==> bit(bb, t) && t < sq + 1 && repeats(stack@, self@.half as int, quiet_hash(self@, piece as int, from as int, t)) by {
                    if bit(bb, t) && done <= t < sq {
                        assert(bit(old_rest, t));
                    }
                    if t == sq {
                        assert(bit(old_rest, t));
                    }
                    assert(bit(old_reps, t) ==> t < done);
                }
                assert forall|u: int| #[trigger] bit(rest, u) <==> bit(bb, u) && u >= sq + 1 by {}
                done = sq + 1;
            }
        }
        proof {
            assert forall|t: int| #[trigger] bit(repetitions, t) <==> bit(bb, t) && repeats(stack@, self@.half as int, quiet_hash(self@, piece as int, from as int, t)) by {
                if bit(bb, t) {
                    assert(!bit(rest, t));
                }
            }
        }
        repetitions
    }

    /// Adds the moves of the `piece` on `from` to `moves`.
    fn gen_from(
        &self,
        stack: &MoveStack,
        moves: &mut MoveList,
        piece: usize,
        from: u8,
        occ: u64,
        enemy: u64,
        from_bits: u64,
        square_bits: u64,
    )
        requires
            can_gen(self@),
            self@.state == GameState::Ongoing,
            Piece::SPY <= piece <= Piece::MARSHAL,
            from < 64,
            bit(self@.bb[piece as int], from as int),
            bit(self@.bb[side(self@.stm)], from as int),
            occ == occupied(self@),
            forall|t: int| 0 <= t < 64 ==> (#[trigger] bit(enemy, t) <==> adjacent_to_side(self@, 1 - side(self@.stm), t)),
            from_bits == last_from_mask(self@),
            square_bits == repeat_mask(self@),
        ensures
            final(moves)@.len() >= old(moves)@.len(),
            final(moves)@.subrange(0, old(moves)@.len() as int) == old(moves)@,
            forall|i: int| old(moves)@.len() <= i < final(moves)@.len() ==> {
                let m = #[trigger] final(moves)@[i];
                legal(self@, stack@, m) && m.piece == piece && m.from == from
            },
            forall|m: Move| legal(self@, stack@, m) && m.piece == piece && m.from == from ==> exists|i: int|
                old(moves)@.len() <= i < final(moves)@.len() && #[trigger] final(moves)@[i] == m,
            forall|i: int, j: int| old(moves)@.len() <= i < j < final(moves)@.len() ==> gen_key(#[trigger] final(moves)@[i]) < gen_key(#[trigger] final(moves)@[j]),
    {
        let ghost p = self@;
        let ghost start = moves@;
        let stm = if self.stm { 1usize } else { 0usize };
        let from_bb = 1u64 << (from as u64);

        let mut attack_mask = if piece == Piece::SCOUT {
            ranged(from as usize, occ)
        } else {
            orthogonal(from as usize)
        };

        // Moving back to previous square/path is forbidden on third time
        if self.last[stm].to == from {
            attack_mask = attack_mask & !square_bits;
        }
        proof {
            assert forall|t: int| #[trigger] bit(attack_mask, t) <==> attack_bit(p, piece as int, from as int, t) by {}
        }

        // `occ` already includes `LAKES`
        let mut quiets = attack_mask & !occ;

        // If opponent's piece is chasing then all quiet moves are evading
        let move_flag = if (self.attacks & from_bb) != 0 {
            Flag::EVADING
        } else {
            Flag::QUIET
        };
        proof {
            let a = self.attacks;
            let f = from as u64;
            assert(((a & (1u64 << f)) != 0) == ((a >> f) & 1u64 == 1u64)) by (bit_vector)
                requires f < 64;
            assert(move_flag == quiet_flag(p, from as int));
        }

        // Piece can't move back to old position when chasing except the previous position
        let repetitions = quiets & enemy & !from_bits;
        if self.evading[1 - stm] && repetitions != 0 {
            let r = self.repetition(stack, stm, from, piece, repetitions);
            quiets = quiets ^ r;
        }
        proof {
            assert forall|t: int| #[trigger] bit(quiets, t) <==> quiet_target(p, stack@, piece as int, from as int, t) by {
                if 0 <= t < 64 && !p.evading[1 - stm as int] {
                    assert(!repeated(p, stack@, piece as int, from as int, t));
                }
                if 0 <= t < 64 && p.evading[1 - stm as int] && repetitions == 0 {
                    assert(!bit(repetitions, t));
                }
            }
        }

        push_targets(moves, from, quiets, move_flag, piece as u8);
        let ghost mid = moves@;

        // `ranged` and `orthogonal` don't subtract `LAKES` implicitly
        let captures = attack_mask & self.bb[1 - stm] & !Position::LAKES;
        proof {
            assert forall|t: int| #[trigger] bit(captures, t) <==> capture_target(p, piece as int, from as int, t) by {}
        }
        push_targets(moves, from, captures, Flag::CAPTURE, piece as u8);
        proof {
            let end = moves@;
            assert(end.subrange(0, start.len() as int) =~= start) by {
                assert(end.subrange(0, mid.len() as int).subrange(0, start.len() as int) =~= end.subrange(0, start.len() as int));
            }
            assert forall|i: int| start.len() <= i < end.len() implies {
                let m = #[trigger] end[i];
                legal(p, stack@, m) && m.piece == piece && m.from == from
            } by {
                if i < mid.len() {
                    assert(end[i] == end.subrange(0, mid.len() as int)[i]);
                }
            }
            assert forall|m: Move| legal(p, stack@, m) && m.piece == piece && m.from == from implies exists|i: int|
                start.len() <= i < end.len() && #[trigger] end[i] == m by {
                if m.flag == Flag::CAPTURE && capture_target(p, piece as int, from as int, m.to as int) {
                    assert(bit(captures, m.to as int));
                    let i = choose|i: int| mid.len() <= i < end.len() && (#[trigger] end[i]).to == m.to;
                    assert(end[i] == m);
                } else {
                    assert(m.flag == move_flag);
                    assert(bit(quiets, m.to as int));
                    let i = choose|i: int| start.len() <= i < mid.len() && (#[trigger] mid[i]).to == m.to;
                    assert(end[i] == end.subrange(0, mid.len() as int)[i]);
                    assert(end[i] == m);
                }
            }
            assert forall|i: int, j: int| start.len() <= i < j < end.len() implies gen_key(#[trigger] end[i]) < gen_key(#[trigger] end[j]) by {
                if j < mid.len() {
                    assert(end[i] == end.subrange(0, mid.len() as int)[i]);
                    assert(end[j] == end.subrange(0, mid.len() as int)[j]);
                    assert(mid[i].to < mid[j].to);
                } else if i < mid.len() {
                    assert(end[i] == end.subrange(0, mid.len() as int)[i]);
                    assert(mid[i].flag != Flag::CAPTURE);
                }
            }
        }
    }


    /// All moves of the side to move, ordered by piece, square of origin,
    /// quiet moves before captures, and target square. No moves when the game
    /// is over.
    pub fn gen(&self, stack: &MoveStack) -> (moves: MoveList)
        requires
            can_gen(self@),
        ensures
            forall|m: Move| moves@.contains(m) <==> legal(self@, stack@, m),
            gen_sorted(moves@),
    {
        let mut moves = MoveList::default();
        // If opponent has won the game in the last turn, no moves are generated
        if self.state != GameState::Ongoing {
            return moves;
        }
        let ghost p = self@;

        let stm = if self.stm { 1usize } else { 0usize };
        let attacks = self.attacks(1 - stm);
        let occ = self.bb[0] | self.bb[1] | Position::LAKES;

        let from_mask = if self.last[stm].from != u8::MAX {
            1u64 << (self.last[stm].from as u64)
        } else {
            0
        };

        // Remove path from attacks on third repetition
        let square_mask = if self.last[stm].moves == 2 {
            self.last[stm].path | from_mask
        } else {
            0
        };

        let mut piece: usize = Piece::SPY;
        while piece <= Piece::MARSHAL
            invariant
                p == self@,
                p.state == GameState::Ongoing,
                can_gen(p),
                stm == side(p.stm),
                Piece::SPY <= piece <= Piece::MARSHAL + 1,
                occ == occupied(p),
                forall|t: int| 0 <= t < 64 ==> (#[trigger] bit(attacks, t) <==> adjacent_to_side(p, 1 - stm as int, t)),
                from_mask == last_from_mask(p),
                square_mask == repeat_mask(p),
                forall|m: Move| moves@.contains(m) <==> legal(p, stack@, m) && (m.piece as int) < piece,
                gen_sorted(moves@),
                forall|i: int| 0 <= i < moves@.len() ==> gen_key(#[trigger] moves@[i]) < piece * 8192,
            decreases Piece::MARSHAL + 1 - piece,
        {
            let mut piece_mask = self.bb[piece] & self.bb[stm];
            let ghost all = piece_mask;
            let ghost mut done: int = 0;
            while piece_mask != 0
                invariant
                    p == self@,
                    p.state == GameState::Ongoing,
                    can_gen(p),
                    stm == side(p.stm),
                    Piece::SPY <= piece <= Piece::MARSHAL,
                    occ == occupied(p),
                    forall|t: int| 0 <= t < 64 ==> (#[trigger] bit(attacks, t) <==> adjacent_to_side(p, 1 - stm as int, t)),
                    from_mask == last_from_mask(p),
                    square_mask == repeat_mask(p),
                    all == p.bb[piece as int] & p.bb[stm as int],
                    0 <= done <= 64,
                    forall|u: int| #[trigger] bit(piece_mask, u) <==> bit(all, u) && u >= done,
                    forall|m: Move| moves@.contains(m) <==> legal(p, stack@, m) && ((m.piece as int) < piece || (m.piece == piece && (m.from as int) < done)),
                    gen_sorted(moves@),
                    forall|i: int| 0 <= i < moves@.len() ==> gen_key(#[trigger] moves@[i]) < (piece * 64 + done) * 128,
                decreases piece_mask,
            {
                proof {
                    lemma_pop_lowest(piece_mask);
                }
                let ghost old_mask = piece_mask;
                let ghost before = moves@;
                let from = piece_mask.trailing_zeros() as u8;
                piece_mask = piece_mask & piece_mask.wrapping_sub(1);
                self.gen_from(stack, &mut moves, piece, from, occ, attacks, from_mask, square_mask);
                proof {
                    let end = moves@;
                    assert(bit(all, from as int));
                    assert forall|m: Move| end.contains(m) <==> legal(p, stack@, m) && ((m.piece as int) < piece || (m.piece == piece && (m.from as int) < from + 1)) by {
                        if end.contains(m) {
                            let i = choose|i: int| 0 <= i < end.len() && end[i] == m;
                            if i < before.len() {
                                assert(end.subrange(0, before.len() as int)[i] == end[i]);
                                assert(before.contains(m));
                            }
                        }
                        if legal(p, stack@, m) && ((m.piece as int) < piece || (m.piece == piece && (m.from as int) < from + 1)) {
                            if m.piece == piece && m.from == from {
                                let i = choose|i: int| before.len() <= i < end.len() && #[trigger] end[i] == m;
                                assert(end.contains(m));
                            } else {
                                if m.piece == piece && done <= m.from < from {
                                    assert(bit(old_mask, m.from as int));
                                }
                                assert(before.contains(m));
                                let i = choose|i: int| 0 <= i < before.len() && before[i] == m;
                                assert(end.subrange(0, before.len() as int)[i] == end[i]);
                                assert(end.contains(m));
                            }
                        }
                    }
                    assert forall|i: int| 0 <= i < end.len() implies gen_key(#[trigger] end[i]) < (piece * 64 + from + 1) * 128 by {
                        if i < before.len() {
                            assert(end.subrange(0, before.len() as int)[i] == end[i]);
                        } else {
                            assert(legal(p, stack@, end[i]));
                        }
                    }
                    assert forall|i: int, j: int| 0 <= i < j < end.len() implies gen_key(#[trigger] end[i]) < gen_key(#[trigger] end[j]) by {
                        if j < before.len() {
                            assert(end.subrange(0, before.len() as int)[i] == end[i]);
                            assert(end.subrange(0, before.len() as int)[j] == end[j]);
                        } else if i < before.len() {
                            assert(end.subrange(0, before.len() as int)[i] == end[i]);
                            assert(legal(p, stack@, end[j]));
                        }
                    }
                    assert forall|u: int| #[trigger] bit(piece_mask, u) <==> bit(all, u) && u >= from + 1 by {}
                    done = from + 1;
                }
            }
            proof {
                assert forall|m: Move| moves@.contains(m) <==> legal(p, stack@, m) && (m.piece as int) < piece + 1 by {
                    if legal(p, stack@, m) && m.piece == piece {
                        assert(bit(all, m.from as int));
                        assert(!bit(piece_mask, m.from as int));
                    }
                }
            }
            piece += 1;
        }
        proof {
            assert forall|m: Move| moves@.contains(m) <==> legal(self@, stack@, m) by {}
        }
        moves
    }

    /// First half of `make`: the records of the last move and the side to move.
    fn record_move(&mut self, mov: &Move, stm: usize)
        requires
            mov.from < 64,
            mov.to < 64,
            stm == side(old(self)@.stm),
            moves_back(old(self)@.last[stm as int], *mov) ==> old(self)@.last[stm as int].moves
                < u8::MAX,
        ensures
            final(self)@ == (PositionView {
                stm: !old(self)@.stm,
                last: old(self)@.last.update(stm as int, next_last(old(self)@.last[stm as int], *mov)),
                attacks: orth_bb(mov.to as int),
                evading: old(self)@.evading.update(stm as int, mov.flag & Flag::EVADING != 0),
                ..old(self)@
            }),
    {
        let l = self.last[stm];
        let back = (l.from == mov.to && l.to == mov.from) || ((l.path & (1u64 << (mov.to as u64))) != 0
            && (l.path & (1u64 << (mov.from as u64))) != 0);
        proof {
            let s = mov.to as u64;
            let f = mov.from as u64;
            let x = l.path;
            assert(((x & (1u64 << s)) != 0) == ((x >> s) & 1u64 == 1u64) && ((x & (1u64 << f)) != 0) == ((x >> f)
                & 1u64 == 1u64)) by (bit_vector)
                requires s < 64, f < 64;
            assert(back == moves_back(l, *mov));
        }
        let mut nl = l;
        if back {
            nl.moves = l.moves + 1;
        } else {
            nl.path = if mov.piece as usize == Piece::SCOUT {
                between_squares(mov.from, mov.to)
            } else {
                0
            };
            nl.moves = 0;
        }
        nl.from = mov.from;
        nl.to = mov.to;
        self.last[stm] = nl;

        self.stm = !self.stm;
        self.attacks = orthogonal(mov.to as usize);
        self.evading[stm] = (mov.flag & Flag::EVADING) != 0;
        proof {
            assert(self@.last =~= old(self)@.last.update(stm as int, next_last(old(self)@.last[stm as int], *mov)));
            assert(self@.evading =~= old(self)@.evading.update(stm as int, mov.flag & Flag::EVADING != 0));
        }
    }

    /// Second half of `make` for a capture: resolves the battle on `mov.to`
    /// and sets the game state.
    fn resolve_capture(&mut self, mov: &Move, stm: usize)
        requires
            stm < 2,
            mov.to < 64,
            Piece::FLAG <= mov.piece <= Piece::BOMB,
        ensures
            ({
                let p3 = PositionView { half: 0, attacker: mov.piece, ..old(self)@ };
                let piece = mov.piece as int;
                let other = piece_at(p3.bb, mov.to as int);
                let outcome = battle(piece, other);
                let p4 = if outcome < 0 {
                    p3
                } else if outcome == 0 {
                    toggled(p3, 1 - stm as int, other, mov.to as int)
                } else {
                    toggled(toggled(p3, stm as int, piece, mov.to as int), 1 - stm as int, other, mov.to as int)
                };
                final(self)@ == PositionView { state: capture_state(p4, stm as int, other), ..p4 }
            }),
    {
        let piece = mov.piece as usize;
        // Reset if board changes because of capture
        self.half = 0;
        self.attacker = mov.piece;

        let other = self.piece(mov.to);
        proof {
            lemma_piece_from_range(self@.bb, mov.to as int, 2);
        }

        // An attacking spy takes the marshal, a miner defuses a bomb
        let outcome: i8 = if piece == Piece::SPY && other == Piece::MARSHAL {
            1
        } else if piece == Piece::MINER && other == Piece::BOMB {
            1
        } else if piece > other {
            1
        } else if piece == other {
            0
        } else {
            -1
        };

        if outcome == 0 {
            self.toggle(1 - stm, other, mov.to);
        } else if outcome > 0 {
            self.toggle(stm, piece, mov.to);
            self.toggle(1 - stm, other, mov.to);
        }

        let immovable = self.bb[Piece::FLAG] | self.bb[Piece::BOMB];

        // Current player has captured the flag
        if other == Piece::FLAG {
            self.state = GameState::Win;
        }
        // If all bitboards except the immovable pieces are empty the game is drawn
        else if ((self.bb[0] | self.bb[1]) ^ immovable) == 0 {
            self.state = GameState::Draw;
        }
        // If the current side has no pieces the other wins
        else if (self.bb[stm] & !immovable) == 0 {
            self.state = GameState::Loss;
        }
        // If other side has no pieces the current side wins
        else if (self.bb[1 - stm] & !immovable) == 0 {
            self.state = GameState::Win;
        }
    }

    /// Plays `m`: moves the piece, resolves a capture, and updates the side to
    /// move, the records for the two-squares rule and the game state.
    pub fn make(&mut self, mov: &Move)
        requires
            can_make(old(self)@, *mov),
        ensures
            final(self)@ == made(old(self)@, *mov),
    {
        let stm = if self.stm { 1usize } else { 0usize };
        let piece = mov.piece as usize;

        self.record_move(mov, stm);

        // Remove piece from old square
        if ((1u64 << (mov.from as u64)) & self.bb[Piece::UNKNOWN]) != 0 {
            proof {
                let x = self.bb[Piece::UNKNOWN as int];
                let f = mov.from as u64;
                assert(((1u64 << f) & x) != 0 ==> (x >> f) & 1u64 == 1u64) by (bit_vector)
                    requires f < 64;
            }
            self.toggle(stm, Piece::UNKNOWN, mov.from);
        } else {
            proof {
                let x = self.bb[Piece::UNKNOWN as int];
                let f = mov.from as u64;
                assert(((1u64 << f) & x) == 0 ==> (x >> f) & 1u64 != 1u64) by (bit_vector)
                    requires f < 64;
            }
            self.toggle(stm, piece, mov.from);
        }

        // Add piece to new square when not capturing
        if (mov.flag & Flag::CAPTURE) == 0 {
            self.toggle(stm, piece, mov.to);
            self.half = self.half + 1;
            self.attacker = 0;
            return;
        }

        // Captures can only be done by piece with known rank
        self.resolve_capture(mov, stm);
    }
}

/// The pieces of a side that can move: all but its flags and bombs.
pub open spec fn movable(p: PositionView, s: int) -> u64 {
    p.bb[s] & !(p.bb[Piece::FLAG as int] | p.bb[Piece::BOMB as int])
}

/// How a capture ends the game, from the view of the side that captured:
/// taking the flag wins; otherwise a side that keeps only its flag and
/// bombs has lost when the other side can still move, and the side that
/// captured wins when only the other side is left without a movable piece;
/// while both sides can move the game goes on as before.
pub proof fn lemma_capture_outcome(p: PositionView, m: Move)
    requires
        p.bb.len() == 10,
        m.flag & Flag::CAPTURE != 0,
        m.from < 64,
        m.to < 64,
        m.from != m.to,
        Piece::FLAG <= m.piece <= Piece::BOMB,
    ensures
        ({
            let q = made(p, m);
            let stm = side(p.stm);
            let flag_taken = piece_at(p.bb, m.to as int) == Piece::FLAG;
            &&& flag_taken ==> q.state == GameState::Win
            &&& !flag_taken && movable(q, stm) == 0 && movable(q, 1 - stm) != 0 ==> q.state == GameState::Loss
            &&& !flag_taken && movable(q, stm) != 0 && movable(q, 1 - stm) == 0 ==> q.state == GameState::Win
            &&& !flag_taken && movable(q, stm) != 0 && movable(q, 1 - stm) != 0 ==> q.state == p.state
            &&& !flag_taken && movable(q, stm) == 0 && movable(q, 1 - stm) == 0
                && (q.bb[Piece::FLAG as int] | q.bb[Piece::BOMB as int]) & !(q.bb[0] | q.bb[1]) == 0
                ==> q.state == GameState::Draw
        }),
{
    let stm = side(p.stm);
    let from = m.from as int;
    let to = m.to as int;
    let piece = m.piece as int;
    let p1 = PositionView {
        stm: !p.stm,
        last: p.last.update(stm, next_last(p.last[stm], m)),
        attacks: orth_bb(m.to as int),
        evading: p.evading.update(stm, m.flag & Flag::EVADING != 0),
        ..p
    };
    let moved = if bit(p.bb[Piece::UNKNOWN as int], from) { Piece::UNKNOWN as int } else { piece };
    let p2 = toggled(p1, stm, moved, from);
    assert forall|i: int| 2 <= i < 10 implies bit(p2.bb[i], to) == bit(p.bb[i], to) by {
        crate::stratego::lemma_toggled_other(p1, stm, moved, from, to, i);
    }
    crate::stratego::lemma_piece_at_same(p2.bb, p.bb, to);
    let q = made(p, m);
    let imm = q.bb[Piece::FLAG as int] | q.bb[Piece::BOMB as int];
    let ms = movable(q, stm);
    let mo = movable(q, 1 - stm);
    if ms != 0 {
        crate::bitboard::lemma_nonzero_bit(ms);
        let x = choose|x: int| bit(ms, x);
        assert(bit(q.bb[stm], x) && !bit(imm, x));
        assert(bit((q.bb[0] | q.bb[1]) ^ imm, x));
    }
    if mo != 0 {
        crate::bitboard::lemma_nonzero_bit(mo);
        let x = choose|x: int| bit(mo, x);
        assert(bit(q.bb[1 - stm], x) && !bit(imm, x));
        assert(bit((q.bb[0] | q.bb[1]) ^ imm, x));
    }
    if ms == 0 && mo == 0 && imm & !(q.bb[0] | q.bb[1]) == 0 {
        assert forall|x: int| 0 <= x < 64 implies (bit((q.bb[0] | q.bb[1]) ^ imm, x) <==> bit(0u64, x)) by {
            assert(!bit(ms, x) && !bit(mo, x) && !bit(imm & !(q.bb[0] | q.bb[1]), x));
        }
        crate::bitboard::lemma_bits_ext((q.bb[0] | q.bb[1]) ^ imm, 0);
    }
}

/// The rule against chasing only applies after the opponent evaded: when
/// its last move did not evade, the positions that came before do not
/// matter.
pub proof fn lemma_no_evasion_no_chasing(p: PositionView, stack: Seq<u64>, m: Move)
    requires
        p.evading.len() == 2,
        !p.evading[1 - side(p.stm)],
    ensures
        legal(p, stack, m) <==> legal(p, Seq::<u64>::empty(), m),
{
}

/// The two-squares rule: on its third return the piece that moved last may
/// not go back to the square it came from, nor onto the scout path it went.
pub proof fn lemma_third_return_forbidden(p: PositionView, stack: Seq<u64>, m: Move)
    requires
        p.last.len() == 2,
        p.last[side(p.stm)].moves == 2,
        p.last[side(p.stm)].from < 64,
        m.from == p.last[side(p.stm)].to,
        m.to == p.last[side(p.stm)].from || bit(p.last[side(p.stm)].path, m.to as int),
    ensures
        !legal(p, stack, m),
{
    let l = p.last[side(p.stm)];
    crate::bitboard::lemma_bit_bit(l.from as u64, m.to as int);
    assert(bit(repeat_mask(p), m.to as int));
}

/// The back-and-forth counter of the side that moves counts only moves in
/// a row back to the square it came from or along the scout path it went:
/// one more after such a move, zero after any other; the move is recorded
/// and the other side's record stays.
pub proof fn lemma_back_and_forth(p: PositionView, m: Move)
    requires
        p.last.len() == 2,
    ensures
        ({
            let stm = side(p.stm);
            let l = p.last[stm];
            let n = made(p, m).last[stm];
            let back = (l.from == m.to && l.to == m.from) || (bit(l.path, m.to as int) && bit(l.path, m.from as int));
            &&& back ==> n.moves == (l.moves + 1) as u8 && n.path == l.path
            &&& !back ==> n.moves == 0
            &&& !back && m.piece as int == Piece::SCOUT ==> n.path == between_bb(m.from, m.to)
            &&& !back && m.piece as int != Piece::SCOUT ==> n.path == 0
            &&& n.from == m.from && n.to == m.to
            &&& made(p, m).last[1 - stm] == p.last[1 - stm]
            &&& made(p, m).last.len() == 2
        }),
{
}

/// The rule against chasing never forbids going back to the square the
/// last move came from: such a move is legal whatever positions came
/// before, exactly when it is legal with no earlier position.
pub proof fn lemma_move_back_not_chasing(p: PositionView, stack: Seq<u64>, m: Move)
    requires
        p.last.len() == 2,
        m.to == p.last[side(p.stm)].from,
    ensures
        legal(p, stack, m) <==> legal(p, Seq::<u64>::empty(), m),
{
    let l = p.last[side(p.stm)];
    if l.from < 64 {
        crate::bitboard::lemma_bit_bit(l.from as u64, m.to as int);
        assert(bit(last_from_mask(p), m.to as int));
    }
    assert(!repeats(Seq::<u64>::empty(), p.half as int, quiet_hash(p, m.piece as int, m.from as int, m.to as int)));
}

} // verus!
