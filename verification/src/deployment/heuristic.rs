//! A hand-written score of a deployment: where the flag stands, how it is
//! protected, and how the other pieces are placed.
use crate::bitboard::{bit, count_ones, group_bits, lemma_pop_lowest, popcount};
use crate::stratego::attacks::{king_bb, orth_bb, rook_bb};
use crate::stratego::util::Piece;
use vstd::prelude::*;
use vstd::std_specs::bits::u64_trailing_zeros;
use crate::deployment::{
    blue_pieces, deployment_notation, drawn_deployment, lemma_random_scorable, placed, placed_by, random, valid_draws,
};
use crate::text::{chars_of, is_numeric, is_numeric_spec};

verus! {

broadcast use group_bits;

/// The lowest square of a bitboard, 64 when it is empty.
pub open spec fn lowest(bb: u64) -> int {
    u64_trailing_zeros(bb) as int
}

pub open spec fn ranged_at(sq: int, occ: u64) -> u64 {
    if sq == 64 {
        0
    } else {
        rook_bb(sq, occ)
    }
}

pub open spec fn chebyshev_at(sq: int) -> u64 {
    if sq == 64 {
        0
    } else {
        king_bb(sq)
    }
}

pub open spec fn orthogonal_at(sq: int) -> u64 {
    if sq == 64 {
        0
    } else {
        orth_bb(sq)
    }
}

/// Score of each square of the first three ranks for the flag.
pub open spec fn flag_table() -> Seq<int> {
    seq![10, 5, 8, 5, 5, 8, 5, 10, 1, 1, 5, 1, 1, 5, 1, 1, 0, 0, 10, 0, 0, 10, 0, 0]
}

pub open spec fn flag_placement_spec(flag: u64) -> int {
    flag_table()[lowest(flag)]
}

/// The flag is hard to reach along ranks and files (+20), has the marshal
/// next to it (+7 each) and bombs beside it (+5 each, +3 more for two).
pub open spec fn flag_protection_spec(occ: u64, flag: u64, bomb: u64, marshal: u64) -> int {
    let sq = lowest(flag);
    let occ2 = occ | flag << 1u64 | flag >> 1u64 | flag >> 8u64;
    let free = ranged_at(sq, occ2) & !occ2;
    let bombs = popcount(orthogonal_at(sq) & bomb) as int;
    (if popcount(free) < 2 { 20int } else { 0int }) + popcount(chebyshev_at(sq) & marshal) as int * 7
        + bombs * 5 + (if bombs == 2 { 3int } else { 0int })
}

/// The general stands next to the spy (+8 each), and the spy is hard to
/// reach along ranks and files (+10).
pub open spec fn general_spy_spec(occ: u64, general: u64, spy: u64) -> int {
    let sq = lowest(spy);
    let occ2 = occ | spy << 1u64 | spy >> 1u64;
    let blocker = ranged_at(sq, occ2) & !occ2;
    popcount(chebyshev_at(sq) & general) as int * 8 + (if popcount(blocker) <= 2 { 10int } else { 0int })
}

/// The free squares that the scouts on the squares of `scout` below `k` reach.
pub open spec fn scout_sum(occ: u64, scout: u64, k: int) -> int
    decreases k,
{
    if k <= 0 {
        0
    } else {
        scout_sum(occ, scout, k - 1) + if bit(scout, k - 1) {
            popcount(rook_bb(k - 1, occ) & !occ) as int
        } else {
            0int
        }
    }
}

/// Half the number of free squares that the scouts reach.
pub open spec fn scout_movement_spec(occ: u64, scout: u64) -> int {
    scout_sum(occ, scout, 64) / 2
}

/// A miner next to the flag (+3).
pub open spec fn miner_placement_spec(flag: u64, miner: u64) -> int {
    if popcount(chebyshev_at(lowest(flag)) & miner) >= 1 {
        3
    } else {
        0
    }
}

pub open spec fn front() -> u64 {
    0xdbdbdbdb0000u64
}

/// One scout on the front (+5, two -5), one miner on the front (+5, two
/// -5), one general on the front (+5).
pub open spec fn front_row_spec(scout: u64, miner: u64, general: u64) -> int {
    let s = popcount(scout & front());
    let m = popcount(miner & front());
    let g = popcount(general & front());
    (if s == 1 { 5int } else if s == 2 { -5int } else { 0int }) + (if m == 1 { 5int } else if m == 2 { -5int } else { 0int })
        + (if g == 1 { 5int } else { 0int })
}

/// The score of a deployment given as bitboards from the view of red.
pub open spec fn evaluate_bb_spec(bb: Seq<u64>) -> int {
    let occ = bb[0] | 0x2424000000u64;
    flag_placement_spec(bb[Piece::FLAG as int])
        + flag_protection_spec(occ, bb[Piece::FLAG as int], bb[Piece::BOMB as int], bb[Piece::MARSHAL as int])
        + general_spy_spec(occ, bb[Piece::GENERAL as int], bb[Piece::SPY as int])
        + scout_movement_spec(occ, bb[Piece::SCOUT as int])
        + miner_placement_spec(bb[Piece::FLAG as int], bb[Piece::MINER as int])
        + front_row_spec(bb[Piece::SCOUT as int], bb[Piece::MINER as int], bb[Piece::GENERAL as int])
}

/// What `evaluate_bb` needs: a flag on the first three ranks.
pub open spec fn evaluable(bb: Seq<u64>) -> bool {
    lowest(bb[Piece::FLAG as int]) < 24
}


/// The piece index of a blue symbol of a deployment (`f s c d g m x b`), -1
/// for other characters.
pub open spec fn deployment_symbol(c: char) -> int {
    if c == 'f' {
        0
    } else if c == 's' {
        1
    } else if c == 'c' {
        2
    } else if c == 'd' {
        3
    } else if c == 'g' {
        4
    } else if c == 'm' {
        5
    } else if c == 'x' {
        6
    } else if c == 'b' {
        7
    } else {
        -1
    }
}

/// Reading a deployment: the bitboards so far, file and rank of the next square.
pub struct DeploymentState {
    pub bb: Seq<u64>,
    pub file: u32,
    pub rank: u32,
}

/// Reads one character of a deployment: a digit skips squares, `/` starts
/// the next rank up, a symbol places a piece. `None` where reading fails.
pub open spec fn deployment_step(st: Option<DeploymentState>, c: char) -> Option<DeploymentState> {
    match st {
        None => None,
        Some(s) => {
            if is_numeric_spec(c) {
                let f = s.file + (c as u32 - '0' as u32);
                if f > u32::MAX {
                    None
                } else {
                    Some(DeploymentState { file: f as u32, ..s })
                }
            } else if c == '/' {
                if s.rank == u32::MAX {
                    None
                } else {
                    Some(DeploymentState { file: 0, rank: (s.rank + 1) as u32, ..s })
                }
            } else {
                let sq = s.file + s.rank * 8;
                let piece = deployment_symbol(c);
                if sq > u32::MAX || piece < 0 || sq >= 64 || s.file == u32::MAX {
                    None
                } else {
                    let bit_sq = 1u64 << (sq as u64);
                    Some(DeploymentState {
                        bb: s.bb.update(0, s.bb[0] | bit_sq).update(piece + 2, s.bb[piece + 2] | bit_sq),
                        file: (s.file + 1) as u32,
                        ..s
                    })
                }
            }
        }
    }
}

/// Reads a deployment like `1c6/2d3mc/d1sgbfb1`, from the first rank up,
/// into bitboards: `bb[0]` all pieces, `bb[2..10]` each kind.
pub open spec fn read_deployment(chars: Seq<char>) -> Option<DeploymentState>
    decreases chars.len(),
{
    if chars.len() == 0 {
        Some(DeploymentState { bb: Seq::new(10, |i: int| 0u64), file: 0, rank: 0 })
    } else {
        deployment_step(read_deployment(chars.drop_last()), chars.last())
    }
}

/// The deployment can be read and scored.
pub open spec fn scorable(chars: Seq<char>) -> bool {
    read_deployment(chars) matches Some(st) && evaluable(st.bb)
}

proof fn lemma_read_deployment_none(chars: Seq<char>, i: int, j: int)
    requires
        0 <= i <= j <= chars.len(),
        read_deployment(chars.take(i)) is None,
    ensures
        read_deployment(chars.take(j)) is None,
    decreases j - i,
{
    if j > i {
        lemma_read_deployment_none(chars, i, j - 1);
        assert(chars.take(j).drop_last() =~= chars.take(j - 1));
    }
}


/// The score of a deployment that can be read and scored.
pub open spec fn score(chars: Seq<char>) -> int {
    evaluate_bb_spec(read_deployment(chars).unwrap().bb)
}

/// The index of the deployment of highest score; of several such, the last.
pub fn best_deployment(deployments: &Vec<String>) -> (res: usize)
    requires
        deployments.len() > 0,
        forall|i: int| 0 <= i < deployments.len() ==> scorable(#[trigger] deployments[i]@),
    ensures
        res < deployments.len(),
        forall|i: int| 0 <= i < deployments.len() ==> score(#[trigger] deployments[i]@) <= score(deployments[res as int]@),
        forall|i: int| res < i < deployments.len() ==> score(#[trigger] deployments[i]@) < score(deployments[res as int]@),
{
    let mut best: usize = 0;
    let mut best_score = evaluate(deployments[0].as_str());
    let mut i: usize = 1;
    while i < deployments.len()
        invariant
            forall|i: int| 0 <= i < deployments.len() ==> scorable(#[trigger] deployments[i]@),
            1 <= i <= deployments.len(),
            best < i,
            best_score == score(deployments[best as int]@),
            forall|k: int| 0 <= k < i ==> score(#[trigger] deployments[k]@) <= best_score,
            forall|k: int| best < k < i ==> score(#[trigger] deployments[k]@) < best_score,
        decreases deployments.len() - i,
    {
        let value = evaluate(deployments[i].as_str());
        if value >= best_score {
            best = i;
            best_score = value;
        }
        i += 1;
    }
    best
}

/// The best of fifty random deployments by `evaluate` (the last of the best
/// where several score the same).
pub fn heuristic() -> (res: String)
    ensures
        exists|ds: Seq<Seq<char>>, b: int| {
            &&& ds.len() == 50
            &&& forall|k: int| 0 <= k < 50 ==> drawn_deployment(#[trigger] ds[k], blue_pieces()) && scorable(ds[k])
            &&& 0 <= b < 50
            &&& res@ == ds[b]
            &&& forall|k: int| 0 <= k < 50 ==> score(#[trigger] ds[k]) <= score(ds[b])
            &&& forall|k: int| b < k < 50 ==> score(#[trigger] ds[k]) < score(ds[b])
        },
        drawn_deployment(res@, blue_pieces()),
        scorable(res@),
{
    let attempts: usize = 50;
    let mut deployments: Vec<String> = Vec::new();
    let mut i: usize = 0;
    while i < attempts
        invariant
            i <= attempts,
            deployments.len() == i,
            forall|k: int| 0 <= k < deployments.len() ==> drawn_deployment(#[trigger] deployments[k]@, blue_pieces()),
        decreases attempts - i,
    {
        let deployment = random();
        deployments.push(deployment);
        i += 1;
    }
    proof {
        assert forall|k: int| 0 <= k < deployments.len() implies scorable(#[trigger] deployments[k]@) by {
            let d = choose|d: Seq<usize>| #[trigger] valid_draws(d) && placed(placed_by(blue_pieces(), d, 10), blue_pieces())
                && deployments[k]@ == deployment_notation(placed_by(blue_pieces(), d, 10));
            lemma_random_scorable(placed_by(blue_pieces(), d, 10));
        }
    }
    let best = best_deployment(&deployments);
    let ghost ds = Seq::new(50, |k: int| deployments[k]@);
    let ghost chosen = deployments[best as int];
    let res = deployments.swap_remove(best);
    proof {
        assert(res@ == chosen@);
        assert(res@ == ds[best as int]);
        assert forall|k: int| 0 <= k < 50 implies score(#[trigger] ds[k]) <= score(ds[best as int]) by {}
    }
    res
}

/// The bitboards of a deployment, `None` where it cannot be read.
fn bitboards(deployment: &str) -> (res: Option<[u64; 10]>)
    ensures
        match read_deployment(deployment@) {
            None => res is None,
            Some(st) => res matches Some(bb) && bb@ == st.bb,
        },
{
    let chars = chars_of(deployment);
    let mut bb = [0u64; 10];
    let mut file: u32 = 0;
    let mut rank: u32 = 0;
    let mut i: usize = 0;
    proof {
        assert(chars@.take(0) =~= Seq::<char>::empty());
        assert(bb@ =~= Seq::new(10, |i: int| 0u64));
    }
    while i < chars.len()
        invariant
            chars@ == deployment@,
            0 <= i <= chars@.len(),
            read_deployment(chars@.take(i as int)) == Some(DeploymentState { bb: bb@, file, rank }),
        decreases chars@.len() - i,
    {
        let c = chars[i];
        proof {
            assert(chars@.take(i + 1).drop_last() =~= chars@.take(i as int));
            assert(chars@.take(i + 1).last() == c);
        }
        if is_numeric(c) {
            let d = (c as u32) - ('0' as u32);
            if file > u32::MAX - d {
                proof {
                    lemma_read_deployment_none(chars@, i + 1, chars@.len() as int);
                    assert(chars@.take(chars@.len() as int) =~= chars@);
                }
                return None;
            }
            file = file + d;
        } else if c == '/' {
            if rank == u32::MAX {
                proof {
                    lemma_read_deployment_none(chars@, i + 1, chars@.len() as int);
                    assert(chars@.take(chars@.len() as int) =~= chars@);
                }
                return None;
            }
            file = 0;
            rank = rank + 1;
        } else {
            let piece: usize = if c == 'f' {
                0
            } else if c == 's' {
                1
            } else if c == 'c' {
                2
            } else if c == 'd' {
                3
            } else if c == 'g' {
                4
            } else if c == 'm' {
                5
            } else if c == 'x' {
                6
            } else if c == 'b' {
                7
            } else {
                9
            };
            if rank > (u32::MAX - file) / 8 || piece == 9 || file + rank * 8 >= 64 || file == u32::MAX {
                proof {
                    lemma_read_deployment_none(chars@, i + 1, chars@.len() as int);
                    assert(chars@.take(chars@.len() as int) =~= chars@);
                }
                return None;
            }
            let sq = (file + rank * 8) as usize;
            bb[0] = bb[0] | (1u64 << (sq as u64));
            bb[piece + 2] = bb[piece + 2] | (1u64 << (sq as u64));
            file += 1;
        }
        i += 1;
    }
    proof {
        assert(chars@.take(chars@.len() as int) =~= chars@);
    }
    Some(bb)
}

/// The score of a deployment, `None` where it cannot be read or has no
/// flag on the first three ranks (where `evaluate` would fail).
pub fn try_evaluate(deployment: &str) -> (res: Option<isize>)
    ensures
        scorable(deployment@) ==> res == Some(evaluate_bb_spec(read_deployment(deployment@).unwrap().bb) as isize),
        !scorable(deployment@) ==> res is None,
{
    match bitboards(deployment) {
        Some(bb) => {
            if bb[Piece::FLAG].trailing_zeros() < 24 {
                Some(evaluate(deployment))
            } else {
                None
            }
        },
        None => None,
    }
}

/// The score of a deployment (see `evaluate_bb_spec`).
pub fn evaluate(deployment: &str) -> (res: isize)
    requires
        scorable(deployment@),
    ensures
        res == evaluate_bb_spec(read_deployment(deployment@).unwrap().bb),
{
    match bitboards(deployment) {
        Some(bb) => evaluate_bb(bb),
        None => {
            proof {
                assert(false);
            }
            0
        },
    }
}

/// The score of a deployment given as bitboards.
pub fn evaluate_bb(bb: [u64; 10]) -> (res: isize)
    requires
        evaluable(bb@),
    ensures
        res == evaluate_bb_spec(bb@),
{
    let occ = bb[0] | 0x2424000000u64;

    flag_placement(bb[Piece::FLAG])
        + flag_protection(occ, bb[Piece::FLAG], bb[Piece::BOMB], bb[Piece::MARSHAL])
        + general_spy(occ, bb[Piece::GENERAL], bb[Piece::SPY])
        + scout_movement(occ, bb[Piece::SCOUT])
        + miner_placement(bb[Piece::FLAG], bb[Piece::MINER])
        + front_row(bb[Piece::SCOUT], bb[Piece::MINER], bb[Piece::GENERAL])
}

proof fn lemma_lowest(bb: u64)
    ensures
        0 <= lowest(bb) <= 64,
{
    vstd::std_specs::bits::axiom_u64_trailing_zeros(bb);
}

fn flag_placement(bb: u64) -> (res: isize)
    requires
        lowest(bb) < 24,
    ensures
        res == flag_placement_spec(bb),
        0 <= res <= 4096,
{
    let table: [isize; 24] = [
        10, 5, 8, 5, 5, 8, 5, 10, 1, 1, 5, 1, 1, 5, 1, 1, 0, 0, 10, 0, 0, 10, 0, 0,
    ];
    let i = bb.trailing_zeros() as usize;
    proof {
        assert(table@ =~= flag_table().map_values(|v: int| v as isize));
    }
    table[i]
}

fn flag_protection(occ: u64, flag: u64, bomb: u64, marshal: u64) -> (res: isize)
    ensures
        res == flag_protection_spec(occ, flag, bomb, marshal),
        0 <= res <= 4096,
{
    proof {
        lemma_lowest(flag);
    }
    let mut score = 0isize;
    let flag_sq = flag.trailing_zeros() as usize;

    let occ = occ | flag << 1u64 | flag >> 1u64 | flag >> 8u64;
    let ranged = ranged(flag_sq, occ) & !occ;
    if count_ones(ranged) < 2 {
        score += 20;
    }

    let chebyshev = chebyshev(flag_sq);
    score += count_ones(chebyshev & marshal) as isize * 7;

    let orthogonal = orthogonal(flag_sq);
    let count = count_ones(orthogonal & bomb) as isize;
    score += count * 5;
    if count == 2 {
        score += 3;
    }

    score
}

fn general_spy(occ: u64, general: u64, spy: u64) -> (res: isize)
    ensures
        res == general_spy_spec(occ, general, spy),
        0 <= res <= 4096,
{
    proof {
        lemma_lowest(spy);
    }
    let mut score = 0isize;

    let spy_sq = spy.trailing_zeros() as usize;
    let chebyshev = chebyshev(spy_sq);

    score += count_ones(chebyshev & general) as isize * 8;

    let occ = occ | spy << 1u64 | spy >> 1u64;
    let blocker = ranged(spy_sq, occ) & !occ;
    if count_ones(blocker) <= 2 {
        score += 10;
    }

    score
}

fn scout_movement(occ: u64, scout: u64) -> (res: isize)
    ensures
        res == scout_movement_spec(occ, scout),
        0 <= res <= 4096,
{
    let mut score: isize = 0;

    let mut rest = scout;
    let ghost mut done: int = 0;
    while rest != 0
        invariant
            0 <= done <= 64,
            forall|u: int| #[trigger] bit(rest, u) <==> bit(scout, u) && u >= done,
            score == scout_sum(occ, scout, done),
            0 <= score <= 64 * done,
        decreases rest,
    {
        proof {
            lemma_pop_lowest(rest);
        }
        let ghost old_rest = rest;
        let sq = rest.trailing_zeros() as u8;
        rest = rest & rest.wrapping_sub(1);
        proof {
            assert forall|t: int| done <= t < sq implies !bit(scout, t) by {
                if bit(scout, t) {
                    assert(bit(old_rest, t));
                }
            }
            lemma_scout_skip(occ, scout, done, sq as int);
        }
        let attacks = crate::stratego::ranged(sq as usize, occ) & !occ;
        score += count_ones(attacks) as isize;
        proof {
            assert forall|u: int| #[trigger] bit(rest, u) <==> bit(scout, u) && u >= sq + 1 by {}
            done = sq + 1;
        }
    }
    proof {
        assert forall|t: int| done <= t < 64 implies !bit(scout, t) by {
            assert(!bit(rest, t));
        }
        lemma_scout_skip(occ, scout, done, 64);
    }

    score / 2
}

proof fn lemma_scout_skip(occ: u64, scout: u64, k: int, j: int)
    requires
        0 <= k <= j <= 64,
        forall|t: int| k <= t < j ==> !bit(scout, t),
    ensures
        scout_sum(occ, scout, j) == scout_sum(occ, scout, k),
    decreases j - k,
{
    if j > k {
        lemma_scout_skip(occ, scout, k, j - 1);
    }
}

fn miner_placement(flag: u64, miner: u64) -> (res: isize)
    ensures
        res == miner_placement_spec(flag, miner),
        0 <= res <= 4096,
{
    proof {
        lemma_lowest(flag);
    }
    let chebyshev = chebyshev(flag.trailing_zeros() as usize);
    let count = count_ones(chebyshev & miner);
    let clamped: isize = if count > 1 { 1 } else { count as isize };
    clamped * 3
}

fn front_row(scout: u64, miner: u64, general: u64) -> (res: isize)
    ensures
        res == front_row_spec(scout, miner, general),
        -10 <= res <= 15,
{
    let front: u64 = 0xdbdbdbdb0000;

    let mut score: isize = 0;
    let (scout, miner, general) = (scout & front, miner & front, general & front);

    let count = count_ones(scout);
    score += if count == 1 {
        5
    } else if count == 2 {
        -5
    } else {
        0
    };

    let count = count_ones(miner);
    score += if count == 1 {
        5
    } else if count == 2 {
        -5
    } else {
        0
    };

    if count_ones(general) == 1 {
        score += 5;
    }

    score
}

/// `ranged`, empty for the square 64 of an empty bitboard.
fn ranged(sq: usize, occ: u64) -> (res: u64)
    requires
        sq <= 64,
    ensures
        res == ranged_at(sq as int, occ),
{
    if sq == 64 {
        return 0;
    }

    crate::stratego::ranged(sq, occ)
}

/// `chebyshev`, empty for the square 64 of an empty bitboard.
fn chebyshev(sq: usize) -> (res: u64)
    requires
        sq <= 64,
    ensures
        res == chebyshev_at(sq as int),
{
    if sq == 64 {
        return 0;
    }

    crate::stratego::chebyshev(sq)
}

/// `orthogonal`, empty for the square 64 of an empty bitboard.
fn orthogonal(sq: usize) -> (res: u64)
    requires
        sq <= 64,
    ensures
        res == orthogonal_at(sq as int),
{
    if sq == 64 {
        return 0;
    }

    crate::stratego::orthogonal(sq)
}

} // verus!
