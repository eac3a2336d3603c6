//! Attack sets of single squares.
use crate::bitboard::{bit, file_of, group_bits, lemma_bits_ext, rank_of};
use vstd::prelude::*;

verus! {

broadcast use group_bits;

/// `t` is one step up, down, left or right of `s`.
pub open spec fn orth_adjacent(s: int, t: int) -> bool {
    &&& 0 <= s < 64
    &&& 0 <= t < 64
    &&& {
        ||| rank_of(s) == rank_of(t) && (file_of(t) == file_of(s) + 1 || file_of(t) + 1 == file_of(s))
        ||| file_of(s) == file_of(t) && (rank_of(t) == rank_of(s) + 1 || rank_of(t) + 1 == rank_of(s))
    }
}

/// `t` is one king step away from `s`.
pub open spec fn king_adjacent(s: int, t: int) -> bool {
    &&& 0 <= s < 64
    &&& 0 <= t < 64
    &&& s != t
    &&& rank_of(s) - 1 <= rank_of(t) <= rank_of(s) + 1
    &&& file_of(s) - 1 <= file_of(t) <= file_of(s) + 1
}

spec fn orth_bv(bb: u64) -> u64 {
    ((bb << 1u64) & 0xfefefefefefefefeu64) | ((bb >> 1u64) & 0x7f7f7f7f7f7f7f7fu64) | (bb << 8u64)
        | (bb >> 8u64)
}

spec fn sideways_bv(bb: u64) -> u64 {
    ((bb << 1u64) & 0xfefefefefefefefeu64) | ((bb >> 1u64) & 0x7f7f7f7f7f7f7f7fu64)
}

proof fn lemma_rank_file_bv(t: u64)
    requires
        t < 64,
    ensures
        t >> 3u64 == rank_of(t as int),
        t & 7u64 == file_of(t as int),
{
    assert(t >> 3u64 == t / 8 && t & 7u64 == t % 8) by (bit_vector)
        requires
            t < 64,
    ;
}

proof fn lemma_orth_bits(s: u64, t: u64)
    requires
        s < 64,
        t < 64,
    ensures
        bit(orth_bv(1u64 << s), t as int) <==> orth_adjacent(s as int, t as int),
{
    assert((orth_bv(1u64 << s) >> t) & 1u64 == 1u64 <==> (
        ((t >> 3u64) == (s >> 3u64) && ((t & 7u64) == (s & 7u64) + 1 || (t & 7u64) + 1 == (s & 7u64)))
        || ((t & 7u64) == (s & 7u64) && ((t >> 3u64) == (s >> 3u64) + 1 || (t >> 3u64) + 1 == (s >> 3u64)))
    )) by (bit_vector)
        requires
            s < 64,
            t < 64,
    ;
    lemma_rank_file_bv(s);
    lemma_rank_file_bv(t);
}

proof fn lemma_king_bits(s: u64, t: u64)
    requires
        s < 64,
        t < 64,
    ensures
        bit(({
            let bb = 1u64 << s;
            let h = sideways_bv(bb);
            let r = bb | h;
            h | (r << 8u64) | (r >> 8u64)
        }), t as int) <==> king_adjacent(s as int, t as int),
{
    let bb = 1u64 << s;
    let h = sideways_bv(bb);
    let r = bb | h;
    assert((((h | (r << 8u64) | (r >> 8u64))) >> t) & 1u64 == 1u64 <==> (
        t != s && (t >> 3u64) + 1 >= (s >> 3u64) && (t >> 3u64) <= (s >> 3u64) + 1
        && (t & 7u64) + 1 >= (s & 7u64) && (t & 7u64) <= (s & 7u64) + 1
    )) by (bit_vector)
        requires
            s < 64,
            t < 64,
            bb == 1u64 << s,
            h == ((bb << 1u64) & 0xfefefefefefefefeu64) | ((bb >> 1u64) & 0x7f7f7f7f7f7f7f7fu64),
            r == bb | h,
    ;
    lemma_rank_file_bv(s);
    lemma_rank_file_bv(t);
}

/// The bitboard of the squares next to `sq` (see `orthogonal`).
pub open spec fn orth_bb(sq: int) -> u64 {
    let bb = 1u64 << (sq as u64);
    ((bb << 1u64) & 0xfefefefefefefefeu64) | ((bb >> 1u64) & 0x7f7f7f7f7f7f7f7fu64) | (bb << 8u64)
        | (bb >> 8u64)
}

/// The squares one step up, down, left or right of `sq`.
pub fn orthogonal(sq: usize) -> (res: u64)
    requires
        sq < 64,
    ensures
        res == orth_bb(sq as int),
        forall|t: int| #[trigger] bit(res, t) <==> orth_adjacent(sq as int, t),
{
    let bb = 1u64 << (sq as u64);
    let res = ((bb << 1u64) & 0xfefefefefefefefe) | ((bb >> 1u64) & 0x7f7f7f7f7f7f7f7f) | (bb << 8u64)
        | (bb >> 8u64);
    proof {
        assert forall|t: int| #[trigger] bit(res, t) <==> orth_adjacent(sq as int, t) by {
            if 0 <= t < 64 {
                lemma_orth_bits(sq as u64, t as u64);
            }
        }
    }
    res
}

/// The bitboard of the squares one king step from `sq` (see `chebyshev`).
pub open spec fn king_bb(sq: int) -> u64 {
    let bb = 1u64 << (sq as u64);
    let h = ((bb << 1u64) & 0xfefefefefefefefeu64) | ((bb >> 1u64) & 0x7f7f7f7f7f7f7f7fu64);
    let r = bb | h;
    h | (r << 8u64) | (r >> 8u64)
}

/// The squares one king step away from `sq`.
pub fn chebyshev(sq: usize) -> (res: u64)
    requires
        sq < 64,
    ensures
        res == king_bb(sq as int),
        forall|t: int| #[trigger] bit(res, t) <==> king_adjacent(sq as int, t),
{
    let bb = 1u64 << (sq as u64);
    let h = ((bb << 1u64) & 0xfefefefefefefefe) | ((bb >> 1u64) & 0x7f7f7f7f7f7f7f7f);
    let r = bb | h;
    let res = h | (r << 8u64) | (r >> 8u64);
    proof {
        assert forall|t: int| #[trigger] bit(res, t) <==> king_adjacent(sq as int, t) by {
            if 0 <= t < 64 {
                lemma_king_bits(sq as u64, t as u64);
            }
        }
    }
    res
}

/// `u` lies strictly between `s` and `t`, which share a rank or a file, on
/// the line that joins them.
pub open spec fn strictly_between(s: int, t: int, u: int) -> bool {
    &&& 0 <= u < 64
    &&& {
        ||| file_of(s) == file_of(t) && file_of(u) == file_of(s)
        ||| rank_of(s) == rank_of(t) && rank_of(u) == rank_of(s)
    }
    &&& (s < u < t || t < u < s)
}

/// A piece on `s` that slides any number of squares along a rank or a file
/// reaches `t` with the squares of `occ` blocking (a blocking square is reached
/// itself, nothing behind it is).
pub open spec fn rook_reach(s: int, t: int, occ: u64) -> bool {
    &&& 0 <= s < 64
    &&& 0 <= t < 64
    &&& s != t
    &&& (rank_of(s) == rank_of(t) || file_of(s) == file_of(t))
    &&& forall|u: int| strictly_between(s, t, u) ==> !#[trigger] bit(occ, u)
}

fn ray_up(sq: usize, occ: u64) -> (res: u64)
    requires
        sq < 64,
    ensures
        forall|u: int| #[trigger] bit(res, u) <==> (rook_reach(sq as int, u, occ) && file_of(u) == file_of(sq as int) && u > sq),
{
    let mut res: u64 = 0;
    let mut t: usize = sq;
    let mut blocked = false;
    while t + 8 < 64 && !blocked
        invariant
            sq < 64,
            sq <= t < 64,
            file_of(t as int) == file_of(sq as int),
            blocked == (t != sq && bit(occ, t as int)),
            forall|u: int| sq < u < t && file_of(u) == file_of(sq as int) ==> !#[trigger] bit(occ, u),
            forall|u: int| #[trigger] bit(res, u) <==> (0 <= u < 64 && file_of(u) == file_of(sq as int) && sq < u <= t),
        decreases 64 - t,
    {
        t = t + 8;
        res = res | (1u64 << (t as u64));
        blocked = (occ >> (t as u64)) & 1 == 1;
    }
    proof {
        assert forall|u: int| #[trigger] bit(res, u) <==> (rook_reach(sq as int, u, occ) && file_of(u) == file_of(sq as int) && u > sq) by {
            if 0 <= u < 64 && file_of(u) == file_of(sq as int) && u > sq {
                if u <= t {
                    assert forall|v: int| strictly_between(sq as int, u, v) implies !#[trigger] bit(occ, v) by {
                        assert(sq < v < t);
                    }
                } else {
                    assert(strictly_between(sq as int, u, t as int));
                }
            }
        }
    }
    res
}

fn ray_down(sq: usize, occ: u64) -> (res: u64)
    requires
        sq < 64,
    ensures
        forall|u: int| #[trigger] bit(res, u) <==> (rook_reach(sq as int, u, occ) && file_of(u) == file_of(sq as int) && u < sq),
{
    let mut res: u64 = 0;
    let mut t: usize = sq;
    let mut blocked = false;
    while t >= 8 && !blocked
        invariant
            sq < 64,
            t <= sq,
            file_of(t as int) == file_of(sq as int),
            blocked == (t != sq && bit(occ, t as int)),
            forall|u: int| t < u < sq && file_of(u) == file_of(sq as int) ==> !#[trigger] bit(occ, u),
            forall|u: int| #[trigger] bit(res, u) <==> (0 <= u < 64 && file_of(u) == file_of(sq as int) && t <= u < sq),
        decreases t,
    {
        t = t - 8;
        res = res | (1u64 << (t as u64));
        blocked = (occ >> (t as u64)) & 1 == 1;
    }
    proof {
        assert forall|u: int| #[trigger] bit(res, u) <==> (rook_reach(sq as int, u, occ) && file_of(u) == file_of(sq as int) && u < sq) by {
            if 0 <= u < 64 && file_of(u) == file_of(sq as int) && u < sq {
                if u >= t {
                    assert forall|v: int| strictly_between(sq as int, u, v) implies !#[trigger] bit(occ, v) by {
                        assert(t < v < sq);
                    }
                } else {
                    assert(strictly_between(sq as int, u, t as int));
                }
            }
        }
    }
    res
}

fn ray_right(sq: usize, occ: u64) -> (res: u64)
    requires
        sq < 64,
    ensures
        forall|u: int| #[trigger] bit(res, u) <==> (rook_reach(sq as int, u, occ) && rank_of(u) == rank_of(sq as int) && u > sq),
{
    let mut res: u64 = 0;
    let mut t: usize = sq;
    let mut blocked = false;
    while t % 8 != 7 && !blocked
        invariant
            sq < 64,
            sq <= t < 64,
            rank_of(t as int) == rank_of(sq as int),
            blocked == (t != sq && bit(occ, t as int)),
            forall|u: int| sq < u < t ==> !#[trigger] bit(occ, u),
            forall|u: int| #[trigger] bit(res, u) <==> (0 <= u < 64 && sq < u <= t),
        decreases 64 - t,
    {
        t = t + 1;
        res = res | (1u64 << (t as u64));
        blocked = (occ >> (t as u64)) & 1 == 1;
    }
    proof {
        assert forall|u: int| #[trigger] bit(res, u) <==> (rook_reach(sq as int, u, occ) && rank_of(u) == rank_of(sq as int) && u > sq) by {
            if 0 <= u < 64 && rank_of(u) == rank_of(sq as int) && u > sq {
                if u <= t {
                    assert forall|v: int| strictly_between(sq as int, u, v) implies !#[trigger] bit(occ, v) by {
                        assert(sq < v < t);
                    }
                } else {
                    assert(strictly_between(sq as int, u, t as int));
                }
            }
        }
    }
    res
}

fn ray_left(sq: usize, occ: u64) -> (res: u64)
    requires
        sq < 64,
    ensures
        forall|u: int| #[trigger] bit(res, u) <==> (rook_reach(sq as int, u, occ) && rank_of(u) == rank_of(sq as int) && u < sq),
{
    let mut res: u64 = 0;
    let mut t: usize = sq;
    let mut blocked = false;
    while t % 8 != 0 && !blocked
        invariant
            sq < 64,
            t <= sq,
            rank_of(t as int) == rank_of(sq as int),
            blocked == (t != sq && bit(occ, t as int)),
            forall|u: int| t < u < sq ==> !#[trigger] bit(occ, u),
            forall|u: int| #[trigger] bit(res, u) <==> (0 <= u < 64 && t <= u < sq),
        decreases t,
    {
        t = t - 1;
        res = res | (1u64 << (t as u64));
        blocked = (occ >> (t as u64)) & 1 == 1;
    }
    proof {
        assert forall|u: int| #[trigger] bit(res, u) <==> (rook_reach(sq as int, u, occ) && rank_of(u) == rank_of(sq as int) && u < sq) by {
            if 0 <= u < 64 && rank_of(u) == rank_of(sq as int) && u < sq {
                if u >= t {
                    assert forall|v: int| strictly_between(sq as int, u, v) implies !#[trigger] bit(occ, v) by {
                        assert(t < v < sq);
                    }
                } else {
                    assert(strictly_between(sq as int, u, t as int));
                }
            }
        }
    }
    res
}

/// The bitboard of the squares of `rook_reach` from `sq`.
pub open spec fn rook_bb(sq: int, occ: u64) -> u64 {
    choose|r: u64| #[trigger] rook_bits(r, sq, occ)
}

/// The squares of `r` are those of `rook_reach` from `sq`.
pub open spec fn rook_bits(r: u64, sq: int, occ: u64) -> bool {
    forall|t: int| #[trigger] bit(r, t) <==> rook_reach(sq, t, occ)
}

/// The squares that a piece on `sq` reaches by sliding along its rank or file,
/// where each direction ends at the first square of `occ` (which is included).
pub fn ranged(sq: usize, occ: u64) -> (res: u64)
    requires
        sq < 64,
    ensures
        res == rook_bb(sq as int, occ),
        forall|t: int| #[trigger] bit(res, t) <==> rook_reach(sq as int, t, occ),
{
    let res = ray_up(sq, occ) | ray_down(sq, occ) | ray_right(sq, occ) | ray_left(sq, occ);
    proof {
        assert forall|t: int| #[trigger] bit(res, t) <==> rook_reach(sq as int, t, occ) by {
            if rook_reach(sq as int, t, occ) {
                assert(t > sq || t < sq);
            }
        }
        assert(rook_bits(res, sq as int, occ));
        let c = rook_bb(sq as int, occ);
        assert(rook_bits(c, sq as int, occ));
        assert forall|t: int| 0 <= t < 64 implies (bit(res, t) <==> bit(c, t)) by {}
        lemma_bits_ext(res, c);
    }
    res
}

/// The squares of the rank or file segment from `from` to `to`, both ends
/// included, when both lie on one file; otherwise the squares from the lower of
/// the two up to the end of its rank segment below the higher one, plus the
/// higher one.
pub open spec fn between_spec(from: int, to: int, t: int) -> bool {
    let lo = if from < to { from } else { to };
    let hi = if from < to { to } else { from };
    &&& 0 <= t < 64
    &&& if file_of(lo) == file_of(hi) {
        file_of(t) == file_of(lo) && lo <= t <= hi
    } else {
        (rank_of(t) == rank_of(lo) && lo <= t < hi) || t == hi
    }
}

proof fn lemma_between_file(l: u64, h: u64, t: u64, fb: u64, tb: u64, m: u64, res: u64)
    requires
        l <= h,
        h < 64,
        t < 64,
        l & 7u64 == h & 7u64,
        fb == 1u64 << l,
        tb == 1u64 << h,
        m == 0x0101010101010101u64 << (l & 7u64),
        res == ((tb - fb) as u64 & m) ^ tb,
    ensures
        (res >> t) & 1u64 == 1u64 <==> ((t & 7u64) == (l & 7u64) && l <= t && t <= h),
{
    assert((res >> t) & 1u64 == 1u64 <==> ((t & 7u64) == (l & 7u64) && l <= t && t <= h))
        by (bit_vector)
        requires
            l <= h,
            h < 64,
            t < 64,
            l & 7u64 == h & 7u64,
            fb == 1u64 << l,
            tb == 1u64 << h,
            m == 0x0101010101010101u64 << (l & 7u64),
            res == ((tb - fb) as u64 & m) ^ tb,
    ;
}

proof fn lemma_between_rank(l: u64, h: u64, t: u64, fb: u64, tb: u64, m: u64, res: u64)
    requires
        l < h,
        h < 64,
        t < 64,
        fb == 1u64 << l,
        tb == 1u64 << h,
        m == 0xFFu64 << (l & 56u64),
        res == ((tb - fb) as u64 & m) ^ tb,
    ensures
        (res >> t) & 1u64 == 1u64 <==> (((t >> 3u64) == (l >> 3u64) && l <= t && t < h) || t == h),
{
    assert((res >> t) & 1u64 == 1u64 <==> (((t >> 3u64) == (l >> 3u64) && l <= t && t < h) || t
        == h)) by (bit_vector)
        requires
            l < h,
            h < 64,
            t < 64,
            fb == 1u64 << l,
            tb == 1u64 << h,
            m == 0xFFu64 << (l & 56u64),
            res == ((tb - fb) as u64 & m) ^ tb,
    ;
}

/// The bitboard that `between_squares` computes.
pub open spec fn between_bb(from: u8, to: u8) -> u64 {
    let lo = if from < to { from } else { to };
    let hi = if from < to { to } else { from };
    let fb = 1u64 << (lo as u64);
    let tb = 1u64 << (hi as u64);
    let mask = if (lo & 7) == (hi & 7) {
        ((tb - fb) as u64) & (0x0101010101010101u64 << ((lo & 7) as u64))
    } else {
        ((tb - fb) as u64) & (0xFFu64 << ((lo & 56) as u64))
    };
    mask ^ tb
}

proof fn lemma_between_shifts(lo: u8, hi: u8)
    requires
        lo <= hi < 64,
    ensures
        (1u64 << (lo as u64)) <= (1u64 << (hi as u64)),
        (lo & 7) < 8,
        (lo & 56) < 64,
{
    let l = lo as u64;
    let h = hi as u64;
    assert(l <= h && h < 64 ==> (1u64 << l) <= (1u64 << h)) by (bit_vector);
    assert((lo & 7) < 8 && (lo & 56) < 64) by (bit_vector);
}

/// The squares of `between_bb` are those of `between_spec`.
pub proof fn lemma_between_bits(from: u8, to: u8)
    requires
        from < 64,
        to < 64,
    ensures
        forall|t: int| #[trigger] bit(between_bb(from, to), t) <==> between_spec(from as int, to as int, t),
{
    let lo = if from < to { from } else { to };
    let hi = if from < to { to } else { from };
    let l = lo as u64;
    let h = hi as u64;
    let from_bit = 1u64 << (lo as u64);
    let to_bit = 1u64 << (hi as u64);
    lemma_between_shifts(lo, hi);
    let res = between_bb(from, to);
    assert forall|t: int| #[trigger] bit(res, t) <==> between_spec(from as int, to as int, t) by {
        if 0 <= t < 64 {
            let tt = t as u64;
            lemma_rank_file_bv(l);
            lemma_rank_file_bv(h);
            lemma_rank_file_bv(tt);
            if (lo & 7) == (hi & 7) {
                lemma_between_file(l, h, tt, from_bit, to_bit, (0x0101010101010101u64 << ((lo & 7) as u64)), res);
            } else {
                lemma_between_rank(l, h, tt, from_bit, to_bit, (0xFFu64 << ((lo & 56) as u64)), res);
            }
        }
    }
}

/// The squares that a scout passes when it moves from `from` to `to` along
/// a file or rank, both ends included.
pub fn between_squares(from: u8, to: u8) -> (res: u64)
    requires
        from < 64,
        to < 64,
    ensures
        res == between_bb(from, to),
        forall|t: int| #[trigger] bit(res, t) <==> between_spec(from as int, to as int, t),
{
    let (lo, hi) = if from < to { (from, to) } else { (to, from) };

    let from_bit = 1u64 << (lo as u64);
    let to_bit = 1u64 << (hi as u64);
    proof {
        lemma_between_shifts(lo, hi);
    }

    let mask = if (lo & 7) == (hi & 7) {
        let file_mask = 0x0101010101010101u64 << ((lo & 7) as u64);
        (to_bit - from_bit) & file_mask
    } else {
        let rank_mask = 0xFFu64 << ((lo & 56) as u64);
        (to_bit - from_bit) & rank_mask
    };

    let res = mask ^ to_bit;
    proof {
        assert(res == between_bb(from, to));
        lemma_between_bits(from, to);
    }
    res
}

/// Attacks are symmetric: `t` is next to `s`, one king step from `s`, or
/// reached by sliding from `s` exactly when the same holds with the two
/// squares swapped.
pub proof fn lemma_attacks_symmetric(s: int, t: int, occ: u64)
    ensures
        orth_adjacent(s, t) == orth_adjacent(t, s),
        king_adjacent(s, t) == king_adjacent(t, s),
        rook_reach(s, t, occ) == rook_reach(t, s, occ),
{
    assert forall|u: int| strictly_between(s, t, u) == strictly_between(t, s, u) by {}
}

/// The squares a scout passes between two squares do not depend on the
/// direction of the move.
pub proof fn lemma_between_symmetric(from: u8, to: u8)
    ensures
        between_bb(from, to) == between_bb(to, from),
{
}

} // verus!
