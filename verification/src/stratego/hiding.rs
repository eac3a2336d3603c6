//! Hiding the ranks of one side's pieces (`StrategoState::anonymize`): what
//! it does square by square, and that it can be done twice or for the two
//! sides in either order with the same board.
use crate::bitboard::{bit, group_bits};
use crate::stratego::position::{piece_at, piece_from, toggled, PositionView};
use crate::stratego::rules::{consistent, lemma_piece_at_bit};
use crate::stratego::util::{zobrist, Piece};
use crate::stratego::{anonymized, lemma_piece_at_same, StrategoView};
use vstd::prelude::*;

verus! {

broadcast use group_bits;

/// Square `s` of bitboard `i` after the squares of `mask` below `k` are
/// hidden: on such a square the piece leaves its own bitboard and enters
/// that of the unknown piece; the other squares are as before.
pub open spec fn anon_bit(p: PositionView, mask: u64, k: int, i: int, s: int) -> bool {
    let piece = piece_at(p.bb, s);
    if 0 <= s < k && bit(mask, s) && piece != Piece::UNKNOWN && (i == piece || i == Piece::UNKNOWN) {
        !bit(p.bb[i], s)
    } else {
        bit(p.bb[i], s)
    }
}

/// What hiding the squares of `mask` below `k` does to the hash: the key of
/// each piece out, the key of the unknown piece in.
pub open spec fn anon_hash(p: PositionView, mask: u64, stm: int, k: int) -> u64
    decreases k,
{
    if k <= 0 {
        0
    } else {
        anon_hash(p, mask, stm, k - 1) ^ if bit(mask, k - 1) {
            zobrist(stm, k - 1, piece_at(p.bb, k - 1)) ^ zobrist(stm, k - 1, Piece::UNKNOWN as int)
        } else {
            0u64
        }
    }
}

proof fn lemma_xor3(a: u64, b: u64, c: u64)
    ensures
        (a ^ b) ^ c == a ^ (b ^ c),
        a ^ 0u64 == a,
        b ^ b == 0u64,
        (a ^ b) ^ c == (a ^ c) ^ b,
{
    assert((a ^ b) ^ c == a ^ (b ^ c) && a ^ 0u64 == a && b ^ b == 0u64 && (a ^ b) ^ c == (a ^ c) ^ b)
        by (bit_vector);
}

/// Hiding the squares of `mask` below `k`, square by square.
pub proof fn lemma_anonymized_shape(p: PositionView, mask: u64, stm: int, k: int)
    requires
        p.bb.len() == 10,
        0 <= stm < 2,
        0 <= k <= 64,
        forall|t: int| 0 <= t < k && bit(mask, t) ==> Piece::FLAG <= #[trigger] piece_at(p.bb, t) <= Piece::BOMB,
    ensures
        ({
            let a = anonymized(p, mask, stm, k);
            &&& a.bb.len() == 10
            &&& forall|i: int, s: int| 0 <= i < 10 ==> #[trigger] bit(a.bb[i], s) == anon_bit(p, mask, k, i, s)
            &&& a.hash == p.hash ^ anon_hash(p, mask, stm, k)
            &&& a == (PositionView { bb: a.bb, hash: a.hash, ..p })
        }),
    decreases k,
{
    if k == 0 {
        lemma_xor3(p.hash, 0, 0);
    } else {
        lemma_anonymized_shape(p, mask, stm, k - 1);
        let q = anonymized(p, mask, stm, k - 1);
        let s = k - 1;
        if bit(mask, s) {
            assert forall|j: int| 2 <= j < 10 implies bit(q.bb[j], s) == bit(p.bb[j], s) by {
                assert(bit(q.bb[j], s) == anon_bit(p, mask, k - 1, j, s));
            }
            lemma_piece_at_same(q.bb, p.bb, s);
            let piece = piece_at(q.bb, s);
            let q1 = toggled(q, stm, piece, s);
            let a = toggled(q1, stm, Piece::UNKNOWN as int, s);
            assert forall|i: int, t: int| 0 <= i < 10 implies #[trigger] bit(a.bb[i], t) == anon_bit(p, mask, k, i, t) by {
                assert(bit(1u64 << (s as u64), t) == (t == s));
                assert(bit(q.bb[i], t) == anon_bit(p, mask, k - 1, i, t));
            }
            lemma_xor3(p.hash, anon_hash(p, mask, stm, k - 1), zobrist(stm, s, piece));
            lemma_xor3(
                p.hash,
                anon_hash(p, mask, stm, k - 1) ^ zobrist(stm, s, piece),
                zobrist(stm, s, Piece::UNKNOWN as int),
            );
            lemma_xor3(
                anon_hash(p, mask, stm, k - 1),
                zobrist(stm, s, piece),
                zobrist(stm, s, Piece::UNKNOWN as int),
            );
        } else {
            lemma_xor3(anon_hash(p, mask, stm, k - 1), 0, 0);
            assert forall|i: int, t: int| 0 <= i < 10 implies #[trigger] bit(q.bb[i], t) == anon_bit(p, mask, k, i, t) by {
                assert(bit(q.bb[i], t) == anon_bit(p, mask, k - 1, i, t));
            }
        }
    }
}

proof fn lemma_piece_from_unknown(bb: Seq<u64>, s: int, i: int)
    requires
        2 <= i <= 8,
        forall|j: int| i <= j < 10 ==> #[trigger] bit(bb[j], s) == (j == Piece::UNKNOWN),
    ensures
        piece_from(bb, s, i) == Piece::UNKNOWN,
    decreases 8 - i,
{
    if i < 8 {
        lemma_piece_from_unknown(bb, s, i + 1);
    }
}

/// The hash change of hiding depends only on the pieces on the hidden squares.
proof fn lemma_anon_hash_same(p1: PositionView, p2: PositionView, mask: u64, stm: int, k: int)
    requires
        forall|t: int| 0 <= t < k && bit(mask, t) ==> #[trigger] piece_at(p1.bb, t) == piece_at(p2.bb, t),
    ensures
        anon_hash(p1, mask, stm, k) == anon_hash(p2, mask, stm, k),
    decreases k,
{
    if k > 0 {
        lemma_anon_hash_same(p1, p2, mask, stm, k - 1);
        if bit(mask, k - 1) {
            assert(piece_at(p1.bb, k - 1) == piece_at(p2.bb, k - 1));
        }
    }
}

/// Hiding squares that already hold the unknown piece leaves the hash alone.
proof fn lemma_anon_hash_zero(p: PositionView, mask: u64, stm: int, k: int)
    requires
        forall|t: int| 0 <= t < k && bit(mask, t) ==> #[trigger] piece_at(p.bb, t) == Piece::UNKNOWN,
    ensures
        anon_hash(p, mask, stm, k) == 0,
    decreases k,
{
    if k > 0 {
        lemma_anon_hash_zero(p, mask, stm, k - 1);
        lemma_xor3(0, zobrist(stm, k - 1, Piece::UNKNOWN as int), 0);
    }
}

/// After side `c` is hidden, each of its hidden squares holds the unknown
/// piece; the other squares hold what they held.
proof fn lemma_hidden_unknown(g: StrategoView, c: int)
    requires
        consistent(g),
        0 <= c < 2,
    ensures
        forall|t: int| 0 <= t < 64 && bit(g.info.bb[c], t) ==> Piece::FLAG <= #[trigger] piece_at(g.board.bb, t) <= Piece::BOMB,
        forall|t: int| 0 <= t < 64 && bit(g.info.bb[c], t) ==> #[trigger] piece_at(anonymized(g.board, g.info.bb[c], c, 64).bb, t) == Piece::UNKNOWN,
        forall|t: int| !bit(g.info.bb[c], t) ==> #[trigger] piece_at(anonymized(g.board, g.info.bb[c], c, 64).bb, t) == piece_at(g.board.bb, t),
{
    let p = g.board;
    let m = g.info.bb[c];
    assert forall|t: int| 0 <= t < 64 && bit(m, t) implies Piece::FLAG <= #[trigger] piece_at(p.bb, t) <= Piece::BOMB by {
        assert(bit(p.bb[c], t));
    }
    lemma_anonymized_shape(p, m, c, 64);
    let a = anonymized(p, m, c, 64);
    assert forall|t: int| 0 <= t < 64 && bit(m, t) implies #[trigger] piece_at(a.bb, t) == Piece::UNKNOWN by {
        assert(bit(p.bb[c], t));
        let piece = piece_at(p.bb, t);
        lemma_piece_at_bit(p.bb, t);
        assert forall|j: int| 2 <= j < 10 implies #[trigger] bit(a.bb[j], t) == (j == Piece::UNKNOWN) by {
            assert(bit(a.bb[j], t) == anon_bit(p, m, 64, j, t));
            if bit(p.bb[j], t) {
                assert(piece_at(p.bb, t) == j);
            }
        }
        lemma_piece_from_unknown(a.bb, t, 2);
    }
    assert forall|t: int| !bit(m, t) implies #[trigger] piece_at(a.bb, t) == piece_at(p.bb, t) by {
        assert forall|j: int| 2 <= j < 10 implies bit(a.bb[j], t) == bit(p.bb[j], t) by {
            assert(bit(a.bb[j], t) == anon_bit(p, m, 64, j, t));
        }
        lemma_piece_at_same(a.bb, p.bb, t);
    }
}

/// Hiding a side twice gives the board of hiding it once.
pub proof fn lemma_anonymize_twice(g: StrategoView, c: int)
    requires
        consistent(g),
        0 <= c < 2,
    ensures
        ({
            let m = g.info.bb[c];
            let a = anonymized(g.board, m, c, 64);
            &&& forall|t: int| bit(m, t) ==> Piece::FLAG <= #[trigger] piece_at(a.bb, t) <= Piece::BOMB
            &&& anonymized(a, m, c, 64) == a
        }),
{
    let p = g.board;
    let m = g.info.bb[c];
    lemma_hidden_unknown(g, c);
    lemma_anonymized_shape(p, m, c, 64);
    let a = anonymized(p, m, c, 64);
    lemma_anonymized_shape(a, m, c, 64);
    let b = anonymized(a, m, c, 64);
    lemma_anon_hash_zero(a, m, c, 64);
    lemma_xor3(a.hash, 0, 0);
    assert forall|i: int| 0 <= i < 10 implies b.bb[i] == a.bb[i] by {
        assert forall|t: int| 0 <= t < 64 implies (bit(b.bb[i], t) <==> bit(a.bb[i], t)) by {
            assert(bit(b.bb[i], t) == anon_bit(a, m, 64, i, t));
        }
        crate::bitboard::lemma_bits_ext(b.bb[i], a.bb[i]);
    }
    assert(b.bb =~= a.bb);
}

/// Hiding red and blue in either order gives the same board.
pub proof fn lemma_anonymize_commute(g: StrategoView)
    requires
        consistent(g),
    ensures
        ({
            let m0 = g.info.bb[0];
            let m1 = g.info.bb[1];
            let a0 = anonymized(g.board, m0, 0, 64);
            let a1 = anonymized(g.board, m1, 1, 64);
            &&& forall|t: int| bit(m1, t) ==> Piece::FLAG <= #[trigger] piece_at(a0.bb, t) <= Piece::BOMB
            &&& forall|t: int| bit(m0, t) ==> Piece::FLAG <= #[trigger] piece_at(a1.bb, t) <= Piece::BOMB
            &&& anonymized(a0, m1, 1, 64) == anonymized(a1, m0, 0, 64)
        }),
{
    let p = g.board;
    let m0 = g.info.bb[0];
    let m1 = g.info.bb[1];
    lemma_hidden_unknown(g, 0);
    lemma_hidden_unknown(g, 1);
    lemma_anonymized_shape(p, m0, 0, 64);
    lemma_anonymized_shape(p, m1, 1, 64);
    let a0 = anonymized(p, m0, 0, 64);
    let a1 = anonymized(p, m1, 1, 64);
    assert forall|t: int| !(#[trigger] bit(m0, t) && bit(m1, t)) by {
        if bit(m0, t) && bit(m1, t) {
            assert(bit(p.bb[0], t) && bit(p.bb[1], t));
        }
    }
    assert forall|t: int| bit(m1, t) implies #[trigger] piece_at(a0.bb, t) == piece_at(p.bb, t) by {
        assert(!bit(m0, t));
    }
    assert forall|t: int| bit(m0, t) implies #[trigger] piece_at(a1.bb, t) == piece_at(p.bb, t) by {
        assert(!bit(m1, t));
    }
    lemma_anonymized_shape(a0, m1, 1, 64);
    lemma_anonymized_shape(a1, m0, 0, 64);
    let x = anonymized(a0, m1, 1, 64);
    let y = anonymized(a1, m0, 0, 64);
    lemma_anon_hash_same(a0, p, m1, 1, 64);
    lemma_anon_hash_same(a1, p, m0, 0, 64);
    lemma_xor3(p.hash, anon_hash(p, m0, 0, 64), anon_hash(p, m1, 1, 64));
    assert forall|i: int| 0 <= i < 10 implies x.bb[i] == y.bb[i] by {
        assert forall|t: int| 0 <= t < 64 implies (bit(x.bb[i], t) <==> bit(y.bb[i], t)) by {
            assert(bit(x.bb[i], t) == anon_bit(a0, m1, 64, i, t));
            assert(bit(y.bb[i], t) == anon_bit(a1, m0, 64, i, t));
            assert(bit(a0.bb[i], t) == anon_bit(p, m0, 64, i, t));
            assert(bit(a1.bb[i], t) == anon_bit(p, m1, 64, i, t));
        }
        crate::bitboard::lemma_bits_ext(x.bb[i], y.bb[i]);
    }
    assert(x.bb =~= y.bb);
}

} // verus!
