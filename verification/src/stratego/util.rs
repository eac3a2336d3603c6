//! Piece and move-flag constants, the rank mirror of a bitboard and the
//! Zobrist keys of the position hash.
use crate::bitboard::{bit, count_below, file_of, group_bits, popcount, rank_of};
use vstd::prelude::*;

verus! {

broadcast use group_bits;

/// Indices of the piece bitboards of a `Position` (indices 0 and 1 are the
/// bitboards of red and blue).
pub struct Piece;

impl Piece {
    pub const FLAG: usize = 2;
    pub const SPY: usize = 3;
    pub const SCOUT: usize = 4;
    pub const MINER: usize = 5;
    pub const GENERAL: usize = 6;
    pub const MARSHAL: usize = 7;
    pub const UNKNOWN: usize = 8;
    pub const BOMB: usize = 9;
}

/// Bits of `Move::flag`.
pub struct Flag;

impl Flag {
    pub const QUIET: u8 = 1;
    pub const CAPTURE: u8 = 2;
    pub const EVADING: u8 = 4;
}

/// The square on the same file and the mirrored rank.
pub open spec fn flip_sq(sq: int) -> int {
    (7 - rank_of(sq)) * 8 + file_of(sq)
}

pub open spec fn swap_ranks(b: u64) -> u64 {
    ((b >> 8u64) & 0x00FF00FF00FF00FFu64) | ((b & 0x00FF00FF00FF00FFu64) << 8u64)
}

pub open spec fn swap_rank_pairs(b: u64) -> u64 {
    ((b >> 16u64) & 0x0000FFFF0000FFFFu64) | ((b & 0x0000FFFF0000FFFFu64) << 16u64)
}

pub open spec fn swap_halves(b: u64) -> u64 {
    (b >> 32u64) | (b << 32u64)
}

proof fn lemma_swap_ranks(b: u64, t: u64)
    requires
        t < 64,
    ensures
        (swap_ranks(b) >> t) & 1u64 == (b >> (t ^ 8u64)) & 1u64,
        (swap_rank_pairs(b) >> t) & 1u64 == (b >> (t ^ 16u64)) & 1u64,
        (swap_halves(b) >> t) & 1u64 == (b >> (t ^ 32u64)) & 1u64,
{
    assert((swap_ranks(b) >> t) & 1u64 == (b >> (t ^ 8u64)) & 1u64) by (bit_vector)
        requires
            t < 64,
    ;
    assert((swap_rank_pairs(b) >> t) & 1u64 == (b >> (t ^ 16u64)) & 1u64) by (bit_vector)
        requires
            t < 64,
    ;
    assert((swap_halves(b) >> t) & 1u64 == (b >> (t ^ 32u64)) & 1u64) by (bit_vector)
        requires
            t < 64,
    ;
}

/// The bitboard mirrored vertically: ranks swapped in pairs, then pairs of
/// ranks, then halves.
pub open spec fn flipped(bb: u64) -> u64 {
    swap_halves(swap_rank_pairs(swap_ranks(bb)))
}

proof fn lemma_flipped_bits(bb: u64)
    ensures
        forall|sq: int| 0 <= sq < 64 ==> (#[trigger] bit(flipped(bb), sq) <==> bit(bb, flip_sq(sq))),
{
    let b1 = swap_ranks(bb);
    let b2 = swap_rank_pairs(b1);
    assert forall|sq: int| 0 <= sq < 64 implies (#[trigger] bit(flipped(bb), sq) <==> bit(bb, flip_sq(sq))) by {
        let t = sq as u64;
        assert(t ^ 56u64 == (7 - t / 8) * 8 + t % 8) by (bit_vector)
            requires
                t < 64,
        ;
        assert((t ^ 32u64) ^ 16u64 ^ 8u64 == t ^ 56u64 && t ^ 32u64 < 64 && (t ^ 32u64) ^ 16u64 < 64) by (bit_vector)
            requires
                t < 64,
        ;
        lemma_swap_ranks(b2, t);
        lemma_swap_ranks(b1, t ^ 32u64);
        lemma_swap_ranks(bb, (t ^ 32u64) ^ 16u64);
    }
}

/// Mirroring a bitboard twice gives it back.
pub proof fn lemma_flip_involution(bb: u64)
    ensures
        flipped(flipped(bb)) == bb,
{
    lemma_flipped_bits(bb);
    lemma_flipped_bits(flipped(bb));
    assert forall|sq: int| 0 <= sq < 64 implies (bit(flipped(flipped(bb)), sq) <==> bit(bb, sq)) by {
        lemma_flip_sq_involution(sq);
    }
    crate::bitboard::lemma_bits_ext(flipped(flipped(bb)), bb);
}

/// Mirroring keeps the squares that two bitboards share, and those of
/// either.
pub proof fn lemma_flip_and_or(x: u64, y: u64)
    ensures
        flipped(x & y) == flipped(x) & flipped(y),
        flipped(x | y) == flipped(x) | flipped(y),
{
    assert(flipped(x & y) == flipped(x) & flipped(y) && flipped(x | y) == flipped(x) | flipped(y)) by (bit_vector);
}

/// Square `a + f` of `x` and square `b + f` of `y` are both set or both clear.
pub open spec fn same_bit(x: u64, a: int, y: u64, b: int, f: int) -> bool {
    bit(x, a + f) == bit(y, b + f)
}

/// Two runs of `n` squares, from `a` in `x` and from `b` in `y`, hold the
/// same bits: they hold as many squares.
proof fn lemma_count_run(x: u64, a: int, y: u64, b: int, n: int)
    requires
        0 <= a,
        0 <= b,
        0 <= n,
        forall|f: int| 0 <= f < n ==> #[trigger] same_bit(x, a, y, b, f),
    ensures
        count_below(x, a + n) - count_below(x, a) == count_below(y, b + n) - count_below(y, b),
    decreases n,
{
    if n > 0 {
        lemma_count_run(x, a, y, b, n - 1);
        assert(same_bit(x, a, y, b, n - 1));
    }
}

/// Rank `r` of the mirrored bitboard holds as many squares as rank `7 - r`.
proof fn lemma_rank_count(x: u64, r: int)
    requires
        0 <= r < 8,
    ensures
        count_below(flipped(x), 8 * r + 8) - count_below(flipped(x), 8 * r)
            == count_below(x, 8 * (7 - r) + 8) - count_below(x, 8 * (7 - r)),
{
    lemma_flipped_bits(x);
    assert forall|f: int| 0 <= f < 8 implies #[trigger] same_bit(flipped(x), 8 * r, x, 8 * (7 - r), f) by {
        assert(flip_sq(8 * r + f) == 8 * (7 - r) + f);
    }
    lemma_count_run(flipped(x), 8 * r, x, 8 * (7 - r), 8);
}

/// Mirroring keeps the number of squares of a bitboard.
pub proof fn lemma_flip_popcount(x: u64)
    ensures
        popcount(flipped(x)) == popcount(x),
{
    let y = flipped(x);
    lemma_rank_count(x, 0);
    lemma_rank_count(x, 1);
    lemma_rank_count(x, 2);
    lemma_rank_count(x, 3);
    lemma_rank_count(x, 4);
    lemma_rank_count(x, 5);
    lemma_rank_count(x, 6);
    lemma_rank_count(x, 7);
    assert(count_below(y, 0) == 0 && count_below(x, 0) == 0);
    assert(count_below(y, 8) - count_below(y, 0) == count_below(x, 64) - count_below(x, 56));
    assert(count_below(y, 16) - count_below(y, 8) == count_below(x, 56) - count_below(x, 48));
    assert(count_below(y, 24) - count_below(y, 16) == count_below(x, 48) - count_below(x, 40));
    assert(count_below(y, 32) - count_below(y, 24) == count_below(x, 40) - count_below(x, 32));
    assert(count_below(y, 40) - count_below(y, 32) == count_below(x, 32) - count_below(x, 24));
    assert(count_below(y, 48) - count_below(y, 40) == count_below(x, 24) - count_below(x, 16));
    assert(count_below(y, 56) - count_below(y, 48) == count_below(x, 16) - count_below(x, 8));
    assert(count_below(y, 64) - count_below(y, 56) == count_below(x, 8) - count_below(x, 0));
    crate::bitboard::lemma_popcount_squares(x);
    crate::bitboard::lemma_popcount_squares(y);
}

/// Mirrors a bitboard vertically: the square on rank `r` moves to rank `7 - r`,
/// the file stays.
pub fn flip_bb(bb: u64) -> (res: u64)
    ensures
        res == flipped(bb),
        forall|sq: int| 0 <= sq < 64 ==> (#[trigger] bit(res, sq) <==> bit(bb, flip_sq(sq))),
{
    let k1: u64 = 0x00FF00FF00FF00FF;
    let k2: u64 = 0x0000FFFF0000FFFF;

    let mut b = bb;

    b = ((b >> 8u64) & k1) | ((b & k1) << 8u64);
    let ghost b1 = b;
    b = ((b >> 16u64) & k2) | ((b & k2) << 16u64);
    let ghost b2 = b;
    b = (b >> 32u64) | (b << 32u64);

    proof {
        assert(b1 == swap_ranks(bb));
        assert(b2 == swap_rank_pairs(b1));
        assert(b == swap_halves(b2));
        lemma_flipped_bits(bb);
    }
    b
}

/// Mirroring a bitboard twice gives it back.
pub proof fn lemma_flip_sq_involution(sq: int)
    requires
        0 <= sq < 64,
    ensures
        0 <= flip_sq(sq) < 64,
        flip_sq(flip_sq(sq)) == sq,
{
}

/// One step of the xorshift generator that the Zobrist keys are drawn from.
pub open spec fn xorshift(s: u64) -> u64 {
    let a = s ^ (s >> 12u64);
    let b = a ^ (a << 25u64);
    b ^ (b >> 27u64)
}

/// The generator state after `n` steps from the fixed seed.
pub open spec fn zobrist_seed(n: nat) -> u64
    decreases n,
{
    if n == 0 {
        1070372u64
    } else {
        xorshift(zobrist_seed((n - 1) as nat))
    }
}

/// The Zobrist key with index `i` (there are `2 * 8 * 64` of them).
pub open spec fn zobrist_key(i: nat) -> u64 {
    vstd::wrapping::u64_specs::wrapping_mul(zobrist_seed(i + 1), 2685821657736338717u64)
}

/// Index of the key of a piece of side `stm` on square `sq`.
pub open spec fn zobrist_index(stm: int, sq: int, piece: int) -> int {
    stm * 8 * 64 + (piece - 2) * 64 + sq
}

/// The key that the position hash toggles when a piece of side `stm` enters or
/// leaves square `sq`.
pub open spec fn zobrist(stm: int, sq: int, piece: int) -> u64 {
    zobrist_key(zobrist_index(stm, sq, piece) as nat)
}

/// Keys for the position hash.
pub struct Zobrist(());

impl Zobrist {
    pub fn get(stm: usize, sq: usize, piece: usize) -> (key: u64)
        requires
            stm < 2,
            Piece::FLAG <= piece <= Piece::BOMB,
            sq < 64,
        ensures
            key == zobrist(stm as int, sq as int, piece as int),
    {
        let index: usize = stm * 8 * 64 + (piece - 2) * 64 + sq;
        let mut seed: u64 = 1070372;
        let mut i: usize = 0;
        while i <= index
            invariant
                i <= index + 1,
                index < 1024,
                seed == zobrist_seed(i as nat),
            decreases index + 1 - i,
        {
            seed ^= seed >> 12u64;
            seed ^= seed << 25u64;
            seed ^= seed >> 27u64;
            i += 1;
        }
        seed.wrapping_mul(2685821657736338717)
    }
}

} // verus!
