//! Bitboards: a `u64` whose bit `sq` stands for square `sq` of the 8x8 board
//! (`a1` = 0, `h1` = 7, `a8` = 56).
use vstd::prelude::*;

verus! {

/// Square `sq` is set in `bb`.
pub open spec fn bit(bb: u64, sq: int) -> bool {
    0 <= sq < 64 && (bb >> (sq as u64)) & 1u64 == 1u64
}

/// File (column) of a square, 0 = a.
pub open spec fn file_of(sq: int) -> int {
    sq % 8
}

/// Rank (row) of a square, 0 = first rank.
pub open spec fn rank_of(sq: int) -> int {
    sq / 8
}

/// The set of squares of a bitboard.
pub open spec fn squares(bb: u64) -> Set<int> {
    Set::new(|sq: int| bit(bb, sq))
}

/// Two bitboards hold the same squares exactly when they are equal.
pub proof fn lemma_bits_ext(a: u64, b: u64)
    requires
        forall|sq: int| 0 <= sq < 64 ==> (bit(a, sq) <==> bit(b, sq)),
    ensures
        a == b,
{
    assert forall|i: u64| i < 64 implies (a >> i) & 1u64 == (b >> i) & 1u64 by {
        assert(bit(a, i as int) <==> bit(b, i as int));
        assert((a >> i) & 1u64 == 1u64 || (a >> i) & 1u64 == 0u64) by (bit_vector);
        assert((b >> i) & 1u64 == 1u64 || (b >> i) & 1u64 == 0u64) by (bit_vector);
    }
    lemma_bits_ext_bv(a, b);
}

/// A bitboard that is not empty has a square.
pub proof fn lemma_nonzero_bit(x: u64)
    requires
        x != 0,
    ensures
        exists|sq: int| bit(x, sq),
{
    if !(exists|sq: int| bit(x, sq)) {
        assert forall|sq: int| 0 <= sq < 64 implies (bit(x, sq) <==> bit(0u64, sq)) by {
            lemma_bit_zero(sq);
        }
        lemma_bits_ext(x, 0);
    }
}

proof fn lemma_bits_ext_bv(a: u64, b: u64)
    requires
        forall|i: u64| i < 64 ==> (a >> i) & 1u64 == (b >> i) & 1u64,
    ensures
        a == b,
{
    assert((a >> 0u64) & 1u64 == (b >> 0u64) & 1u64);
    assert((a >> 1u64) & 1u64 == (b >> 1u64) & 1u64);
    assert((a >> 2u64) & 1u64 == (b >> 2u64) & 1u64);
    assert((a >> 3u64) & 1u64 == (b >> 3u64) & 1u64);
    assert((a >> 4u64) & 1u64 == (b >> 4u64) & 1u64);
    assert((a >> 5u64) & 1u64 == (b >> 5u64) & 1u64);
    assert((a >> 6u64) & 1u64 == (b >> 6u64) & 1u64);
    assert((a >> 7u64) & 1u64 == (b >> 7u64) & 1u64);
    assert((a >> 8u64) & 1u64 == (b >> 8u64) & 1u64);
    assert((a >> 9u64) & 1u64 == (b >> 9u64) & 1u64);
    assert((a >> 10u64) & 1u64 == (b >> 10u64) & 1u64);
    assert((a >> 11u64) & 1u64 == (b >> 11u64) & 1u64);
    assert((a >> 12u64) & 1u64 == (b >> 12u64) & 1u64);
    assert((a >> 13u64) & 1u64 == (b >> 13u64) & 1u64);
    assert((a >> 14u64) & 1u64 == (b >> 14u64) & 1u64);
    assert((a >> 15u64) & 1u64 == (b >> 15u64) & 1u64);
    assert((a >> 16u64) & 1u64 == (b >> 16u64) & 1u64);
    assert((a >> 17u64) & 1u64 == (b >> 17u64) & 1u64);
    assert((a >> 18u64) & 1u64 == (b >> 18u64) & 1u64);
    assert((a >> 19u64) & 1u64 == (b >> 19u64) & 1u64);
    assert((a >> 20u64) & 1u64 == (b >> 20u64) & 1u64);
    assert((a >> 21u64) & 1u64 == (b >> 21u64) & 1u64);
    assert((a >> 22u64) & 1u64 == (b >> 22u64) & 1u64);
    assert((a >> 23u64) & 1u64 == (b >> 23u64) & 1u64);
    assert((a >> 24u64) & 1u64 == (b >> 24u64) & 1u64);
    assert((a >> 25u64) & 1u64 == (b >> 25u64) & 1u64);
    assert((a >> 26u64) & 1u64 == (b >> 26u64) & 1u64);
    assert((a >> 27u64) & 1u64 == (b >> 27u64) & 1u64);
    assert((a >> 28u64) & 1u64 == (b >> 28u64) & 1u64);
    assert((a >> 29u64) & 1u64 == (b >> 29u64) & 1u64);
    assert((a >> 30u64) & 1u64 == (b >> 30u64) & 1u64);
    assert((a >> 31u64) & 1u64 == (b >> 31u64) & 1u64);
    assert((a >> 32u64) & 1u64 == (b >> 32u64) & 1u64);
    assert((a >> 33u64) & 1u64 == (b >> 33u64) & 1u64);
    assert((a >> 34u64) & 1u64 == (b >> 34u64) & 1u64);
    assert((a >> 35u64) & 1u64 == (b >> 35u64) & 1u64);
    assert((a >> 36u64) & 1u64 == (b >> 36u64) & 1u64);
    assert((a >> 37u64) & 1u64 == (b >> 37u64) & 1u64);
    assert((a >> 38u64) & 1u64 == (b >> 38u64) & 1u64);
    assert((a >> 39u64) & 1u64 == (b >> 39u64) & 1u64);
    assert((a >> 40u64) & 1u64 == (b >> 40u64) & 1u64);
    assert((a >> 41u64) & 1u64 == (b >> 41u64) & 1u64);
    assert((a >> 42u64) & 1u64 == (b >> 42u64) & 1u64);
    assert((a >> 43u64) & 1u64 == (b >> 43u64) & 1u64);
    assert((a >> 44u64) & 1u64 == (b >> 44u64) & 1u64);
    assert((a >> 45u64) & 1u64 == (b >> 45u64) & 1u64);
    assert((a >> 46u64) & 1u64 == (b >> 46u64) & 1u64);
    assert((a >> 47u64) & 1u64 == (b >> 47u64) & 1u64);
    assert((a >> 48u64) & 1u64 == (b >> 48u64) & 1u64);
    assert((a >> 49u64) & 1u64 == (b >> 49u64) & 1u64);
    assert((a >> 50u64) & 1u64 == (b >> 50u64) & 1u64);
    assert((a >> 51u64) & 1u64 == (b >> 51u64) & 1u64);
    assert((a >> 52u64) & 1u64 == (b >> 52u64) & 1u64);
    assert((a >> 53u64) & 1u64 == (b >> 53u64) & 1u64);
    assert((a >> 54u64) & 1u64 == (b >> 54u64) & 1u64);
    assert((a >> 55u64) & 1u64 == (b >> 55u64) & 1u64);
    assert((a >> 56u64) & 1u64 == (b >> 56u64) & 1u64);
    assert((a >> 57u64) & 1u64 == (b >> 57u64) & 1u64);
    assert((a >> 58u64) & 1u64 == (b >> 58u64) & 1u64);
    assert((a >> 59u64) & 1u64 == (b >> 59u64) & 1u64);
    assert((a >> 60u64) & 1u64 == (b >> 60u64) & 1u64);
    assert((a >> 61u64) & 1u64 == (b >> 61u64) & 1u64);
    assert((a >> 62u64) & 1u64 == (b >> 62u64) & 1u64);
    assert((a >> 63u64) & 1u64 == (b >> 63u64) & 1u64);
    assert(a == b) by (bit_vector)
        requires
        (a >> 0u64) & 1u64 == (b >> 0u64) & 1u64,
        (a >> 1u64) & 1u64 == (b >> 1u64) & 1u64,
        (a >> 2u64) & 1u64 == (b >> 2u64) & 1u64,
        (a >> 3u64) & 1u64 == (b >> 3u64) & 1u64,
        (a >> 4u64) & 1u64 == (b >> 4u64) & 1u64,
        (a >> 5u64) & 1u64 == (b >> 5u64) & 1u64,
        (a >> 6u64) & 1u64 == (b >> 6u64) & 1u64,
        (a >> 7u64) & 1u64 == (b >> 7u64) & 1u64,
        (a >> 8u64) & 1u64 == (b >> 8u64) & 1u64,
        (a >> 9u64) & 1u64 == (b >> 9u64) & 1u64,
        (a >> 10u64) & 1u64 == (b >> 10u64) & 1u64,
        (a >> 11u64) & 1u64 == (b >> 11u64) & 1u64,
        (a >> 12u64) & 1u64 == (b >> 12u64) & 1u64,
        (a >> 13u64) & 1u64 == (b >> 13u64) & 1u64,
        (a >> 14u64) & 1u64 == (b >> 14u64) & 1u64,
        (a >> 15u64) & 1u64 == (b >> 15u64) & 1u64,
        (a >> 16u64) & 1u64 == (b >> 16u64) & 1u64,
        (a >> 17u64) & 1u64 == (b >> 17u64) & 1u64,
        (a >> 18u64) & 1u64 == (b >> 18u64) & 1u64,
        (a >> 19u64) & 1u64 == (b >> 19u64) & 1u64,
        (a >> 20u64) & 1u64 == (b >> 20u64) & 1u64,
        (a >> 21u64) & 1u64 == (b >> 21u64) & 1u64,
        (a >> 22u64) & 1u64 == (b >> 22u64) & 1u64,
        (a >> 23u64) & 1u64 == (b >> 23u64) & 1u64,
        (a >> 24u64) & 1u64 == (b >> 24u64) & 1u64,
        (a >> 25u64) & 1u64 == (b >> 25u64) & 1u64,
        (a >> 26u64) & 1u64 == (b >> 26u64) & 1u64,
        (a >> 27u64) & 1u64 == (b >> 27u64) & 1u64,
        (a >> 28u64) & 1u64 == (b >> 28u64) & 1u64,
        (a >> 29u64) & 1u64 == (b >> 29u64) & 1u64,
        (a >> 30u64) & 1u64 == (b >> 30u64) & 1u64,
        (a >> 31u64) & 1u64 == (b >> 31u64) & 1u64,
        (a >> 32u64) & 1u64 == (b >> 32u64) & 1u64,
        (a >> 33u64) & 1u64 == (b >> 33u64) & 1u64,
        (a >> 34u64) & 1u64 == (b >> 34u64) & 1u64,
        (a >> 35u64) & 1u64 == (b >> 35u64) & 1u64,
        (a >> 36u64) & 1u64 == (b >> 36u64) & 1u64,
        (a >> 37u64) & 1u64 == (b >> 37u64) & 1u64,
        (a >> 38u64) & 1u64 == (b >> 38u64) & 1u64,
        (a >> 39u64) & 1u64 == (b >> 39u64) & 1u64,
        (a >> 40u64) & 1u64 == (b >> 40u64) & 1u64,
        (a >> 41u64) & 1u64 == (b >> 41u64) & 1u64,
        (a >> 42u64) & 1u64 == (b >> 42u64) & 1u64,
        (a >> 43u64) & 1u64 == (b >> 43u64) & 1u64,
        (a >> 44u64) & 1u64 == (b >> 44u64) & 1u64,
        (a >> 45u64) & 1u64 == (b >> 45u64) & 1u64,
        (a >> 46u64) & 1u64 == (b >> 46u64) & 1u64,
        (a >> 47u64) & 1u64 == (b >> 47u64) & 1u64,
        (a >> 48u64) & 1u64 == (b >> 48u64) & 1u64,
        (a >> 49u64) & 1u64 == (b >> 49u64) & 1u64,
        (a >> 50u64) & 1u64 == (b >> 50u64) & 1u64,
        (a >> 51u64) & 1u64 == (b >> 51u64) & 1u64,
        (a >> 52u64) & 1u64 == (b >> 52u64) & 1u64,
        (a >> 53u64) & 1u64 == (b >> 53u64) & 1u64,
        (a >> 54u64) & 1u64 == (b >> 54u64) & 1u64,
        (a >> 55u64) & 1u64 == (b >> 55u64) & 1u64,
        (a >> 56u64) & 1u64 == (b >> 56u64) & 1u64,
        (a >> 57u64) & 1u64 == (b >> 57u64) & 1u64,
        (a >> 58u64) & 1u64 == (b >> 58u64) & 1u64,
        (a >> 59u64) & 1u64 == (b >> 59u64) & 1u64,
        (a >> 60u64) & 1u64 == (b >> 60u64) & 1u64,
        (a >> 61u64) & 1u64 == (b >> 61u64) & 1u64,
        (a >> 62u64) & 1u64 == (b >> 62u64) & 1u64,
        (a >> 63u64) & 1u64 == (b >> 63u64) & 1u64,
    ;
}

pub broadcast proof fn lemma_bit_or(a: u64, b: u64, sq: int)
    ensures
        #[trigger] bit(a | b, sq) <==> bit(a, sq) || bit(b, sq),
{
    if 0 <= sq < 64 {
        let s = sq as u64;
        assert(((a | b) >> s) & 1u64 == 1u64 <==> (a >> s) & 1u64 == 1u64 || (b >> s) & 1u64
            == 1u64) by (bit_vector);
    }
}

pub broadcast proof fn lemma_bit_and(a: u64, b: u64, sq: int)
    ensures
        #[trigger] bit(a & b, sq) <==> bit(a, sq) && bit(b, sq),
{
    if 0 <= sq < 64 {
        let s = sq as u64;
        assert(((a & b) >> s) & 1u64 == 1u64 <==> (a >> s) & 1u64 == 1u64 && (b >> s) & 1u64
            == 1u64) by (bit_vector);
    }
}

pub broadcast proof fn lemma_bit_xor(a: u64, b: u64, sq: int)
    ensures
        #[trigger] bit(a ^ b, sq) <==> 0 <= sq < 64 && (bit(a, sq) != bit(b, sq)),
{
    if 0 <= sq < 64 {
        let s = sq as u64;
        assert(((a ^ b) >> s) & 1u64 == 1u64 <==> ((a >> s) & 1u64 == 1u64) != ((b >> s) & 1u64
            == 1u64)) by (bit_vector);
    }
}

pub broadcast proof fn lemma_bit_not(a: u64, sq: int)
    ensures
        #[trigger] bit(!a, sq) <==> 0 <= sq < 64 && !bit(a, sq),
{
    if 0 <= sq < 64 {
        let s = sq as u64;
        assert(((!a) >> s) & 1u64 == 1u64 <==> !((a >> s) & 1u64 == 1u64)) by (bit_vector)
            requires
                s < 64,
        ;
    }
}

pub broadcast proof fn lemma_bit_bit(s: u64, sq: int)
    requires
        s < 64,
    ensures
        #[trigger] bit(1u64 << s, sq) <==> sq == s,
{
    if 0 <= sq < 64 {
        let t = sq as u64;
        assert(((1u64 << s) >> t) & 1u64 == 1u64 <==> s == t) by (bit_vector)
            requires
                s < 64,
                t < 64,
        ;
    }
}

pub broadcast proof fn lemma_bit_zero(sq: int)
    ensures
        !#[trigger] bit(0u64, sq),
{
    if 0 <= sq < 64 {
        let t = sq as u64;
        assert((0u64 >> t) & 1u64 == 0u64) by (bit_vector);
    }
}

/// Testing a square with a one-square mask.
pub proof fn lemma_mask_bit(x: u64, s: u64)
    requires
        s < 64,
    ensures
        ((x & (1u64 << s)) != 0) == bit(x, s as int),
        (((1u64 << s) & x) != 0) == bit(x, s as int),
{
    assert(((x & (1u64 << s)) != 0) == ((x >> s) & 1u64 == 1u64) && (((1u64 << s) & x) != 0) == ((x >> s) & 1u64
        == 1u64)) by (bit_vector)
        requires
            s < 64,
    ;
}

pub broadcast group group_bits {
    lemma_bit_or,
    lemma_bit_and,
    lemma_bit_xor,
    lemma_bit_not,
    lemma_bit_bit,
    lemma_bit_zero,
}

/// Facts used by the loop that visits the squares of a bitboard from the lowest up:
/// `trailing_zeros` names the lowest square, and `bb & (bb - 1)` removes it.
pub proof fn lemma_pop_lowest(bb: u64)
    requires
        bb != 0,
    ensures
        ({
            let t = bb.trailing_zeros() as int;
            &&& 0 <= t < 64
            &&& bit(bb, t)
            &&& forall|j: int| 0 <= j < t ==> !bit(bb, j)
            &&& forall|j: int| #[trigger] bit(bb & ((bb - 1) as u64), j) <==> bit(bb, j) && j != t
            &&& (bb & ((bb - 1) as u64)) < bb
        }),
{
    vstd::std_specs::bits::axiom_u64_trailing_zeros(bb);
    let t = bb.trailing_zeros() as u64;
    assert(t < 64);
    assert forall|j: int| 0 <= j < t implies !bit(bb, j) by {
        let jj = j as u64;
        assert((bb >> jj) & 1u64 == 0u64);
    }
    assert forall|j: int| #[trigger] bit(bb & ((bb - 1) as u64), j) <==> bit(bb, j) && j != t by {
        if 0 <= j < 64 {
            let jj = j as u64;
            assert(((bb & ((bb - 1) as u64)) >> jj) & 1u64 == 1u64 <==> (bb >> jj) & 1u64 == 1u64 && jj
                != t) by (bit_vector)
                requires
                    bb != 0,
                    t < 64,
                    jj < 64,
                    (bb >> t) & 1u64 == 1u64,
                    bb << ((64 - t) as u64) == 0,
            ;
        }
    }
    assert((bb & ((bb - 1) as u64)) < bb) by (bit_vector)
        requires
            bb != 0,
    ;
}

/// Number of set bits.
pub open spec fn popcount(x: u64) -> nat
    decreases x,
{
    if x == 0 {
        0
    } else {
        (x % 2) as nat + popcount(x / 2)
    }
}

/// Clearing the lowest set bit lowers the count by one.
pub proof fn lemma_popcount_pop(x: u64)
    requires
        x != 0,
    ensures
        popcount(x & ((x - 1) as u64)) + 1 == popcount(x),
    decreases x,
{
    let y = x & ((x - 1) as u64);
    if x % 2 == 1 {
        assert(x % 2 == 1 ==> y / 2 == x / 2 && y % 2 == 0) by (bit_vector)
            requires
                y == x & ((x - 1) as u64),
        ;
        assert(popcount(y) == popcount(y / 2)) by {
            if y != 0 {
            }
        }
    } else {
        let h = x / 2;
        assert(x != 0 && x % 2 == 0 ==> h != 0 && y / 2 == h & ((h - 1) as u64) && y % 2 == 0)
            by (bit_vector)
            requires
                h == x / 2,
                y == x & ((x - 1) as u64),
        ;
        lemma_popcount_pop(h);
        if y == 0 {
            assert(h & ((h - 1) as u64) == 0);
        }
    }
}

/// The number of squares of a bitboard (`u64::count_ones`).
pub fn count_ones(x: u64) -> (res: u32)
    ensures
        res == popcount(x),
        res <= 64,
{
    let mut rest = x;
    let mut n: u32 = 0;
    proof {
        lemma_popcount_le(x);
    }
    while rest != 0
        invariant
            n + popcount(rest) == popcount(x),
            popcount(x) <= 64,
        decreases rest,
    {
        proof {
            lemma_popcount_pop(rest);
            assert((rest & ((rest - 1) as u64)) < rest) by (bit_vector)
                requires
                    rest != 0,
            ;
        }
        rest = rest & rest.wrapping_sub(1);
        n = n + 1;
    }
    n
}

pub proof fn lemma_popcount_le(x: u64)
    ensures
        popcount(x) <= 64,
{
    vstd::arithmetic::power2::lemma2_to64_rest();
    lemma_popcount_bound(x, 64);
}

proof fn lemma_popcount_bound(x: u64, n: nat)
    requires
        (x as int) < vstd::arithmetic::power2::pow2(n),
    ensures
        popcount(x) <= n,
    decreases n,
{
    if x != 0 {
        if n == 0 {
            vstd::arithmetic::power2::lemma2_to64();
        } else {
            vstd::arithmetic::power2::lemma_pow2_unfold(n);
            lemma_popcount_bound(x / 2, (n - 1) as nat);
        }
    }
}

/// Number of squares of `mask` below `k`.
pub open spec fn count_below(mask: u64, k: int) -> nat
    decreases k,
{
    if k <= 0 {
        0
    } else {
        count_below(mask, k - 1) + if bit(mask, k - 1) {
            1nat
        } else {
            0nat
        }
    }
}

proof fn lemma_count_below_half(x: u64, k: int)
    requires
        0 <= k <= 63,
    ensures
        count_below(x, k + 1) == (x % 2) as nat + count_below(x / 2, k),
    decreases k,
{
    if k == 0 {
        assert((x >> 0u64) & 1u64 == x % 2) by (bit_vector);
        assert(count_below(x, 0) == 0);
    } else {
        lemma_count_below_half(x, k - 1);
        let kk = k as u64;
        assert(((x >> kk) & 1u64 == 1u64) == (((x / 2) >> ((kk - 1) as u64)) & 1u64 == 1u64)) by (bit_vector)
            requires
                1 <= kk < 64,
        ;
    }
}

/// The number of set bits is the number of squares of the bitboard.
pub proof fn lemma_popcount_squares(x: u64)
    ensures
        popcount(x) == count_below(x, 64),
    decreases x,
{
    if x == 0 {
        lemma_count_zero(64);
    } else {
        lemma_popcount_squares(x / 2);
        lemma_count_below_half(x, 63);
        let h = x / 2;
        assert((h >> 63u64) & 1u64 == 0u64) by (bit_vector)
            requires
                h == x / 2,
        ;
        assert(count_below(h, 64) == count_below(h, 63));
    }
}

proof fn lemma_count_zero(k: int)
    ensures
        count_below(0, k) == 0,
    decreases k,
{
    if k > 0 {
        lemma_count_zero(k - 1);
        lemma_bit_zero(k - 1);
    }
}

} // verus!
