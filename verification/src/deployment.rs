//! Deployments: the placement of one side's pieces on its first three ranks.
pub mod heuristic;

use crate::bitboard::{bit, group_bits, lemma_pop_lowest};
use crate::deployment::heuristic::{
    deployment_step, deployment_symbol, evaluable, read_deployment, scorable, DeploymentState,
};
use crate::rng::{random_below, random_bool};
use crate::stratego::position::read_notation;
use crate::stratego::rules::{board_wf, consistent};
use crate::stratego::util::Piece;
use crate::stratego::StrategoState;
use crate::text::{chars_of, string_of};
use vstd::prelude::*;

verus! {

/// The notation of one rank: pieces as symbols, each run of empty squares
/// (`' '`) as its length, `gap` empty squares pending before `row`.
pub open spec fn rank_notation(row: Seq<char>, gap: nat) -> Seq<char>
    decreases row.len(),
{
    if row.len() == 0 {
        if gap > 0 {
            seq![(gap + '0' as nat) as char]
        } else {
            seq![]
        }
    } else if row[0] == ' ' {
        rank_notation(row.drop_first(), gap + 1)
    } else {
        (if gap > 0 {
            seq![(gap + '0' as nat) as char]
        } else {
            seq![]
        }) + seq![row[0]] + rank_notation(row.drop_first(), 0)
    }
}

/// The notation of the three ranks of a deployment, first rank first,
/// separated by `/`.
pub open spec fn deployment_notation(cells: Seq<char>) -> Seq<char> {
    rank_notation(cells.subrange(0, 8), 0) + seq!['/'] + rank_notation(cells.subrange(8, 16), 0) + seq!['/']
        + rank_notation(cells.subrange(16, 24), 0)
}

/// The ten pieces of a deployment stand on different cells of 24, the other
/// cells are empty.
pub open spec fn placed(cells: Seq<char>, pieces: Seq<char>) -> bool {
    &&& cells.len() == 24
    &&& exists|at: Seq<int>| #[trigger] placement(cells, pieces, at)
}

/// Piece `k` stands on cell `at[k]`, no two on one cell, and the cells that
/// no piece stands on are empty.
pub open spec fn placement(cells: Seq<char>, pieces: Seq<char>, at: Seq<int>) -> bool {
    &&& at.len() == pieces.len()
    &&& forall|k: int| 0 <= k < at.len() ==> 0 <= #[trigger] at[k] < 24 && cells[at[k]] == pieces[k]
    &&& forall|k: int, l: int| 0 <= k < l < at.len() ==> #[trigger] at[k] != #[trigger] at[l]
    &&& forall|i: int| 0 <= i < 24 && (forall|k: int| 0 <= k < at.len() ==> #[trigger] at[k] != i) ==> cells[i] == ' '
}

/// The pieces of a side in the order they are placed: flag, spy, two scouts,
/// two miners, general, marshal, two bombs (blue symbols).
pub open spec fn blue_pieces() -> Seq<char> {
    seq!['f', 's', 'c', 'c', 'd', 'd', 'g', 'm', 'b', 'b']
}

pub open spec fn red_pieces() -> Seq<char> {
    seq!['F', 'S', 'C', 'C', 'D', 'D', 'G', 'M', 'B', 'B']
}

fn push_rank(out: &mut Vec<char>, cells: &Vec<char>, start: usize)
    requires
        start <= 16,
        cells@.len() == 24,
    ensures
        final(out)@ == old(out)@ + rank_notation(cells@.subrange(start as int, start + 8), 0),
{
    let ghost row = cells@.subrange(start as int, start + 8);
    let mut last_piece: u8 = 0;
    let mut j: usize = 0;
    proof {
        assert(row.skip(0) =~= row);
    }
    while j < 8
        invariant
            start <= 16,
            cells@.len() == 24,
            row == cells@.subrange(start as int, start + 8),
            j <= 8,
            last_piece <= j,
            old(out)@ + rank_notation(row, 0) == out@ + rank_notation(row.skip(j as int), last_piece as nat),
        decreases 8 - j,
    {
        let cell = cells[start + j];
        proof {
            assert(row.skip(j as int)[0] == cell);
            assert(row.skip(j as int).drop_first() =~= row.skip(j + 1));
        }
        if cell == ' ' {
            last_piece += 1;
        } else {
            if last_piece != 0 {
                out.push((last_piece + 48) as char);
            }
            out.push(cell);
            last_piece = 0;
        }
        j += 1;
    }
    if last_piece != 0 {
        out.push((last_piece + 48) as char);
    }
    proof {
        assert(row.skip(8) =~= Seq::<char>::empty());
    }
}

/// The notation of the cells of a deployment.
pub(crate) fn notation(cells: &Vec<char>) -> (res: String)
    requires
        cells@.len() == 24,
    ensures
        res@ == deployment_notation(cells@),
{
    let mut out: Vec<char> = Vec::new();
    push_rank(&mut out, cells, 0);
    out.push('/');
    push_rank(&mut out, cells, 8);
    out.push('/');
    push_rank(&mut out, cells, 16);
    proof {
        assert(out@ =~= deployment_notation(cells@));
    }
    string_of(&out)
}

/// The index of the `r`-th empty cell (counting from 0) from cell `c` on;
/// 24 when there is none.
pub open spec fn empty_at(cells: Seq<char>, r: int, c: int) -> int
    decreases 24 - c,
{
    if c < 0 || c >= 24 {
        24
    } else if cells[c] == ' ' {
        if r <= 0 {
            c
        } else {
            empty_at(cells, r - 1, c + 1)
        }
    } else {
        empty_at(cells, r, c + 1)
    }
}

/// The cells after the first `k` pieces are placed by the draws: piece `j`
/// goes on the `draws[j]`-th empty cell.
pub open spec fn placed_by(pieces: Seq<char>, draws: Seq<usize>, k: int) -> Seq<char>
    decreases k,
{
    if k <= 0 {
        Seq::new(24, |i: int| ' ')
    } else {
        let prev = placed_by(pieces, draws, k - 1);
        prev.update(empty_at(prev, draws[k - 1] as int, 0), pieces[k - 1])
    }
}

/// Ten draws, draw `k` below the `24 - k` cells still empty.
pub open spec fn valid_draws(draws: Seq<usize>) -> bool {
    &&& draws.len() == 10
    &&& forall|k: int| 0 <= k < 10 ==> #[trigger] draws[k] < 24 - k
}

/// The `r`-th empty cell from `c0` on is the empty cell `c` with `r` empty
/// cells between them.
proof fn lemma_empty_at(cells: Seq<char>, r: int, c0: int, c: int)
    requires
        cells.len() == 24,
        0 <= c0 <= c < 24,
        cells[c] == ' ',
        count_empty(cells, c) - count_empty(cells, c0) == r,
    ensures
        empty_at(cells, r, c0) == c,
    decreases c - c0,
{
    if c0 < c {
        lemma_count_empty_mono(cells, c0 + 1, c);
        lemma_empty_at(cells, if cells[c0] == ' ' { r - 1 } else { r }, c0 + 1, c);
    }
}

proof fn lemma_count_empty_mono(cells: Seq<char>, a: int, b: int)
    requires
        0 <= a <= b,
    ensures
        count_empty(cells, a) <= count_empty(cells, b),
    decreases b - a,
{
    if a < b {
        lemma_count_empty_mono(cells, a, b - 1);
    }
}

/// Places the pieces one after the other, piece `k` on the `draws[k]`-th
/// empty cell of 24 (see `placed_by`).
pub fn place_cells(pieces: &Vec<char>, draws: &Vec<usize>) -> (cells: Vec<char>)
    requires
        pieces@.len() == 10,
        forall|k: int| 0 <= k < 10 ==> pieces@[k] != ' ',
        valid_draws(draws@),
    ensures
        cells@ == placed_by(pieces@, draws@, 10),
        placed(cells@, pieces@),
{
    let mut cells: Vec<char> = Vec::new();
    let mut i: usize = 0;
    while i < 24
        invariant
            i <= 24,
            cells@.len() == i,
            forall|j: int| 0 <= j < i ==> cells@[j] == ' ',
        decreases 24 - i,
    {
        cells.push(' ');
        i += 1;
    }
    let ghost mut at: Seq<int> = Seq::empty();
    proof {
        lemma_count_all_empty(cells@, 24);
        assert(cells@ =~= placed_by(pieces@, draws@, 0));
    }
    let mut k: usize = 0;
    while k < 10
        invariant
            pieces@.len() == 10,
            forall|k: int| 0 <= k < 10 ==> pieces@[k] != ' ',
            k <= 10,
            cells@.len() == 24,
            at.len() == k,
            forall|a: int| 0 <= a < at.len() ==> 0 <= #[trigger] at[a] < 24 && cells@[at[a]] == pieces@[a],
            forall|a: int, b: int| 0 <= a < b < at.len() ==> #[trigger] at[a] != #[trigger] at[b],
            forall|c: int| 0 <= c < 24 && (forall|a: int| 0 <= a < at.len() ==> #[trigger] at[a] != c) ==> cells@[c] == ' ',
            forall|c: int| 0 <= c < 24 && cells@[c] == ' ' ==> (forall|a: int| 0 <= a < at.len() ==> #[trigger] at[a] != c),
            count_empty(cells@, 24) == 24 - k,
            valid_draws(draws@),
            cells@ == placed_by(pieces@, draws@, k as int),
        decreases 10 - k,
    {
        let r = draws[k];
        // The `r`-th empty cell
        let mut c: usize = 0;
        let mut seen: usize = 0;
        while c < 24 && (cells[c] != ' ' || seen < r)
            invariant
                cells@.len() == 24,
                c <= 24,
                r < 24 - k,
                count_empty(cells@, 24) == 24 - k,
                seen == count_empty(cells@, c as int),
                seen <= r,
            decreases 24 - c,
        {
            if cells[c] == ' ' {
                seen += 1;
            }
            c += 1;
        }
        proof {
            if c >= 24 {
                assert(seen == 24 - k);
                assert(false);
            }
        }
        let ghost before = cells@;
        proof {
            lemma_empty_at(before, r as int, 0, c as int);
        }
        cells.set(c, pieces[k]);
        proof {
            lemma_count_empty_set(before, c as int, pieces@[k as int]);
            let old_at = at;
            at = at.push(c as int);
            assert forall|d: int| 0 <= d < 24 && (forall|a: int| 0 <= a < at.len() ==> #[trigger] at[a] != d) implies cells@[d] == ' ' by {
                assert(at[at.len() - 1] == c);
                assert forall|a: int| 0 <= a < old_at.len() implies #[trigger] old_at[a] != d by {
                    assert(at[a] == old_at[a]);
                }
            }
            assert forall|d: int| 0 <= d < 24 && cells@[d] == ' ' implies (forall|a: int| 0 <= a < at.len() ==> #[trigger] at[a] != d) by {
                assert forall|a: int| 0 <= a < at.len() implies #[trigger] at[a] != d by {
                    if a < old_at.len() {
                        assert(at[a] == old_at[a]);
                        assert(before[d] == ' ');
                    }
                }
            }
            assert forall|a: int, b: int| 0 <= a < b < at.len() implies #[trigger] at[a] != #[trigger] at[b] by {
                if b == at.len() - 1 {
                    assert(before[at[a]] == pieces@[a]);
                }
            }
        }
        k += 1;
    }
    proof {
        assert(placement(cells@, pieces@, at));
    }
    cells
}

/// Places the pieces on random empty cells of 24, one after the other.
pub(crate) fn random_cells(pieces: &Vec<char>) -> (cells: Vec<char>)
    requires
        pieces@.len() == 10,
        forall|k: int| 0 <= k < 10 ==> pieces@[k] != ' ',
    ensures
        exists|d: Seq<usize>| #[trigger] valid_draws(d) && cells@ == placed_by(pieces@, d, 10) && placed(cells@, pieces@),
{
    let mut draws: Vec<usize> = Vec::new();
    let mut k: usize = 0;
    while k < 10
        invariant
            k <= 10,
            draws@.len() == k,
            forall|j: int| 0 <= j < k ==> #[trigger] draws@[j] < 24 - j,
        decreases 10 - k,
    {
        let r = random_below(24 - k);
        draws.push(r);
        k += 1;
    }
    let cells = place_cells(pieces, &draws);
    proof {
        assert(valid_draws(draws@));
    }
    cells
}

proof fn lemma_count_all_empty(cells: Seq<char>, n: int)
    requires
        0 <= n <= cells.len(),
        forall|j: int| 0 <= j < n ==> cells[j] == ' ',
    ensures
        count_empty(cells, n) == n,
    decreases n,
{
    if n > 0 {
        lemma_count_all_empty(cells, n - 1);
    }
}

/// Number of empty cells below `n`.
pub open spec fn count_empty(cells: Seq<char>, n: int) -> int
    decreases n,
{
    if n <= 0 {
        0
    } else {
        count_empty(cells, n - 1) + if cells[n - 1] == ' ' {
            1int
        } else {
            0int
        }
    }
}

proof fn lemma_count_empty_set(cells: Seq<char>, c: int, x: char)
    requires
        0 <= c < cells.len(),
        cells[c] == ' ',
        x != ' ',
    ensures
        forall|n: int| c < n <= cells.len() ==> #[trigger] count_empty(cells.update(c, x), n) == count_empty(cells, n) - 1,
        forall|n: int| n <= c ==> #[trigger] count_empty(cells.update(c, x), n) == count_empty(cells, n),
{
    assert forall|n: int| n <= c implies #[trigger] count_empty(cells.update(c, x), n) == count_empty(cells, n) by {
        lemma_count_empty_prefix(cells, c, x, n);
    }
    assert forall|n: int| c < n <= cells.len() implies #[trigger] count_empty(cells.update(c, x), n) == count_empty(cells, n) - 1 by {
        lemma_count_empty_after(cells, c, x, n);
    }
}

proof fn lemma_count_empty_prefix(cells: Seq<char>, c: int, x: char, n: int)
    requires
        0 <= c < cells.len(),
        n <= c,
    ensures
        count_empty(cells.update(c, x), n) == count_empty(cells, n),
    decreases n,
{
    if n > 0 {
        lemma_count_empty_prefix(cells, c, x, n - 1);
    }
}

proof fn lemma_count_empty_after(cells: Seq<char>, c: int, x: char, n: int)
    requires
        0 <= c < cells.len(),
        cells[c] == ' ',
        x != ' ',
        c < n <= cells.len(),
    ensures
        count_empty(cells.update(c, x), n) == count_empty(cells, n) - 1,
    decreases n,
{
    if n - 1 == c {
        lemma_count_empty_prefix(cells, c, x, c);
    } else {
        lemma_count_empty_after(cells, c, x, n - 1);
    }
}


/// Every cell of a deployment is empty or holds a piece symbol.
pub open spec fn deployment_cells(cells: Seq<char>) -> bool {
    &&& cells.len() == 24
    &&& forall|i: int| 0 <= i < 24 ==> cells[i] == ' ' || deployment_symbol(#[trigger] cells[i]) >= 0
}

/// The bitboards of the cells below `n`, cell `i` on square `i`: `[0]` all
/// pieces, `[2 + k]` the pieces of symbol index `k`.
pub open spec fn cells_bb(cells: Seq<char>, n: int) -> Seq<u64>
    decreases n,
{
    if n <= 0 {
        Seq::new(10, |i: int| 0u64)
    } else {
        let b = cells_bb(cells, n - 1);
        let c = cells[n - 1];
        if c == ' ' {
            b
        } else {
            let bit_sq = 1u64 << ((n - 1) as u64);
            let piece = deployment_symbol(c);
            b.update(0, b[0] | bit_sq).update(piece + 2, b[piece + 2] | bit_sq)
        }
    }
}

/// Reading `chars` from the state `st` on.
pub open spec fn read_from(st: Option<DeploymentState>, chars: Seq<char>) -> Option<DeploymentState>
    decreases chars.len(),
{
    if chars.len() == 0 {
        st
    } else {
        deployment_step(read_from(st, chars.drop_last()), chars.last())
    }
}

proof fn lemma_read_from_start(chars: Seq<char>)
    ensures
        read_deployment(chars) == read_from(
            Some(DeploymentState { bb: Seq::new(10, |i: int| 0u64), file: 0, rank: 0 }),
            chars,
        ),
    decreases chars.len(),
{
    if chars.len() > 0 {
        lemma_read_from_start(chars.drop_last());
    }
}

proof fn lemma_read_from_concat(st: Option<DeploymentState>, a: Seq<char>, b: Seq<char>)
    ensures
        read_from(st, a + b) == read_from(read_from(st, a), b),
    decreases b.len(),
{
    if b.len() == 0 {
        assert(a + b =~= a);
    } else {
        assert((a + b).drop_last() =~= a + b.drop_last());
        assert((a + b).last() == b.last());
        lemma_read_from_concat(st, a, b.drop_last());
    }
}

proof fn lemma_read_digit(bb: Seq<u64>, file: u32, rank: u32, gap: int)
    requires
        0 < gap <= 8,
        file + gap <= 8,
    ensures
        read_from(Some(DeploymentState { bb, file, rank }), seq![(gap + '0' as nat) as char])
            == Some(DeploymentState { bb, file: (file + gap) as u32, rank }),
{
    let d = (gap + '0' as nat) as char;
    let st = Some(DeploymentState { bb, file, rank });
    assert(seq![d].drop_last() =~= Seq::<char>::empty());
    assert(read_from(st, seq![d].drop_last()) == st);
    assert(d as u32 == gap + 48);
    assert(crate::text::is_numeric_spec(d));
}

/// Reading the notation of the rest of a rank, from cell `j` on with `gap`
/// empty cells pending, adds the pieces of the rank and ends after its last
/// file.
proof fn lemma_read_rank(cells: Seq<char>, r: int, j: int, gap: int)
    requires
        deployment_cells(cells),
        0 <= r <= 2,
        0 <= gap <= j <= 8,
        forall|k: int| 8 * r + j - gap <= k < 8 * r + j ==> cells[k] == ' ',
    ensures
        read_from(
            Some(DeploymentState { bb: cells_bb(cells, 8 * r + j), file: (j - gap) as u32, rank: r as u32 }),
            rank_notation(cells.subrange(8 * r + j, 8 * r + 8), gap as nat),
        ) == Some(DeploymentState { bb: cells_bb(cells, 8 * r + 8), file: 8, rank: r as u32 }),
    decreases 8 - j,
{
    let row = cells.subrange(8 * r + j, 8 * r + 8);
    let st = DeploymentState { bb: cells_bb(cells, 8 * r + j), file: (j - gap) as u32, rank: r as u32 };
    if j == 8 {
        assert(row =~= Seq::<char>::empty());
        if gap > 0 {
            lemma_read_digit(st.bb, st.file, st.rank, gap);
        }
    } else {
        assert(row.drop_first() =~= cells.subrange(8 * r + j + 1, 8 * r + 8));
        let c = cells[8 * r + j];
        assert(row[0] == c);
        if c == ' ' {
            lemma_read_rank(cells, r, j + 1, gap + 1);
        } else {
            let pre: Seq<char> = if gap > 0 {
                seq![(gap + '0' as nat) as char]
            } else {
                seq![]
            };
            let rest = rank_notation(row.drop_first(), 0);
            assert(rank_notation(row, gap as nat) == pre + seq![c] + rest);
            lemma_read_from_concat(Some(st), pre + seq![c], rest);
            lemma_read_from_concat(Some(st), pre, seq![c]);
            let st1 = DeploymentState { file: j as u32, ..st };
            if gap > 0 {
                lemma_read_digit(st.bb, st.file, st.rank, gap);
            } else {
                assert(pre =~= Seq::<char>::empty());
            }
            assert(read_from(Some(st), pre) == Some(st1));
            assert(seq![c].drop_last() =~= Seq::<char>::empty());
            assert(read_from(Some(st1), seq![c].drop_last()) == Some(st1));
            assert(deployment_symbol(c) >= 0);
            assert(!crate::text::is_numeric_spec(c));
            assert(read_from(Some(st1), seq![c]) == Some(
                DeploymentState { bb: cells_bb(cells, 8 * r + j + 1), file: (j + 1) as u32, rank: r as u32 },
            ));
            lemma_read_rank(cells, r, j + 1, 0);
        }
    }
}

proof fn lemma_read_slash(bb: Seq<u64>, rank: u32)
    requires
        rank < 2,
    ensures
        read_from(Some(DeploymentState { bb, file: 8, rank }), seq!['/'])
            == Some(DeploymentState { bb, file: 0, rank: (rank + 1) as u32 }),
{
    let st = Some(DeploymentState { bb, file: 8, rank });
    assert(seq!['/'].drop_last() =~= Seq::<char>::empty());
    assert(read_from(st, seq!['/'].drop_last()) == st);
    assert(!crate::text::is_numeric_spec('/'));
}

/// The squares of the bitboards of the cells below `n`.
proof fn lemma_cells_bb_bits(cells: Seq<char>, n: int)
    requires
        deployment_cells(cells),
        0 <= n <= 24,
    ensures
        cells_bb(cells, n).len() == 10,
        forall|k: int, sq: int|
            0 <= k < 10 ==> (#[trigger] bit(cells_bb(cells, n)[k], sq) <==> 0 <= sq < n && cells[sq] != ' ' && (k == 0
                || deployment_symbol(cells[sq]) + 2 == k)),
    decreases n,
{
    broadcast use group_bits;

    if n > 0 {
        lemma_cells_bb_bits(cells, n - 1);
        let c = cells[n - 1];
        assert(c == ' ' || deployment_symbol(c) >= 0);
        assert(deployment_symbol(c) <= 7);
        let s = (n - 1) as u64;
        assert forall|sq: int| #[trigger] bit(1u64 << s, sq) <==> sq == n - 1 by {}
    }
}

/// What a deployment's notation reads back as: the same pieces on the same
/// squares, cell `i` on square `i`, so that the rank and file of each piece
/// are kept.
pub proof fn lemma_notation_reads_back(cells: Seq<char>)
    requires
        deployment_cells(cells),
    ensures
        read_deployment(deployment_notation(cells)) == Some(
            DeploymentState { bb: cells_bb(cells, 24), file: 8, rank: 2 },
        ),
        cells_bb(cells, 24).len() == 10,
        forall|k: int, sq: int|
            0 <= k < 10 ==> (#[trigger] bit(cells_bb(cells, 24)[k], sq) <==> 0 <= sq < 24 && cells[sq] != ' ' && (k
                == 0 || deployment_symbol(cells[sq]) + 2 == k)),
{
    let r0 = rank_notation(cells.subrange(0, 8), 0);
    let r1 = rank_notation(cells.subrange(8, 16), 0);
    let r2 = rank_notation(cells.subrange(16, 24), 0);
    let init = DeploymentState { bb: Seq::new(10, |i: int| 0u64), file: 0, rank: 0 };
    lemma_read_from_start(deployment_notation(cells));
    assert(cells_bb(cells, 0) == init.bb);
    lemma_read_rank(cells, 0, 0, 0);
    lemma_read_rank(cells, 1, 0, 0);
    lemma_read_rank(cells, 2, 0, 0);
    lemma_read_slash(cells_bb(cells, 8), 0);
    lemma_read_slash(cells_bb(cells, 16), 1);
    let a = r0 + seq!['/'];
    let b = a + r1 + seq!['/'];
    lemma_read_from_concat(Some(init), r0, seq!['/']);
    lemma_read_from_concat(Some(init), a, r1);
    lemma_read_from_concat(Some(init), a + r1, seq!['/']);
    lemma_read_from_concat(Some(init), b, r2);
    lemma_cells_bb_bits(cells, 24);
}

/// Every deployment that `random` can give can be scored: it reads back and
/// has its flag on the first three ranks.
pub proof fn lemma_random_scorable(cells: Seq<char>)
    requires
        placed(cells, blue_pieces()),
    ensures
        scorable(deployment_notation(cells)),
{
    broadcast use group_bits;

    let at = choose|at: Seq<int>| placement(cells, blue_pieces(), at);
    assert forall|i: int| 0 <= i < 24 implies cells[i] == ' ' || deployment_symbol(#[trigger] cells[i]) >= 0 by {
        if exists|k: int| 0 <= k < at.len() && at[k] == i {
            let k = choose|k: int| 0 <= k < at.len() && at[k] == i;
            assert(cells[at[k]] == blue_pieces()[k]);
        }
    }
    lemma_notation_reads_back(cells);
    let flags = cells_bb(cells, 24)[Piece::FLAG as int];
    let f = at[0];
    assert(cells[f] == 'f');
    assert(bit(flags, f));
    lemma_pop_lowest(flags);
    assert(evaluable(cells_bb(cells, 24)));
}


/// The deployments of the data set, from the view of blue, first rank first.
pub open spec fn dataset_entry(i: int) -> Seq<char> {
    if i == 0 {
        "1c6/2d3mc/d1sgbfb1"@
    } else if i == 1 {
        "3bfbc1/1cd1m3/2sgd3"@
    } else if i == 2 {
        "fb1c4/bg4c1/1dsgd3"@
    } else if i == 3 {
        "1c6/s2cm3/g1d1dfbb"@
    } else if i == 4 {
        "7c/d1fbg3/cbmd1s2"@
    } else if i == 5 {
        "4mfbc/c4bds/1d2g3"@
    } else if i == 6 {
        "7c/fb2d1c1/mgsbd3"@
    } else if i == 7 {
        "3c3c/1g2bfm1/d1s1db2"@
    } else if i == 8 {
        "5c1/2csdbd1/3gbfm1"@
    } else if i == 9 {
        "7c/c3bfm1/1dsg1bd1"@
    } else if i == 10 {
        "5cbf/5cdb/1gsd3m"@
    } else {
        "1mfbc3/1cbd4/2sg1d2"@
    }
}

/// The number of deployments in the data set.
pub const DATASET_SIZE: usize = 12;

fn dataset_str(i: usize) -> (res: &'static str)
    requires
        i < DATASET_SIZE,
    ensures
        res@ == dataset_entry(i as int),
{
    if i == 0 {
        "1c6/2d3mc/d1sgbfb1"
    } else if i == 1 {
        "3bfbc1/1cd1m3/2sgd3"
    } else if i == 2 {
        "fb1c4/bg4c1/1dsgd3"
    } else if i == 3 {
        "1c6/s2cm3/g1d1dfbb"
    } else if i == 4 {
        "7c/d1fbg3/cbmd1s2"
    } else if i == 5 {
        "4mfbc/c4bds/1d2g3"
    } else if i == 6 {
        "7c/fb2d1c1/mgsbd3"
    } else if i == 7 {
        "3c3c/1g2bfm1/d1s1db2"
    } else if i == 8 {
        "5c1/2csdbd1/3gbfm1"
    } else if i == 9 {
        "7c/c3bfm1/1dsg1bd1"
    } else if i == 10 {
        "5cbf/5cdb/1gsd3m"
    } else {
        "1mfbc3/1cbd4/2sg1d2"
    }
}

/// The notation with the characters of each rank (between the `/`) in
/// reverse order: `rest` is still to read, `rank` holds the current rank
/// reversed so far.
pub open spec fn mirror_ranks(rest: Seq<char>, rank: Seq<char>) -> Seq<char>
    decreases rest.len(),
{
    if rest.len() == 0 {
        rank
    } else if rest[0] == '/' {
        rank + seq!['/'] + mirror_ranks(rest.drop_first(), seq![])
    } else {
        mirror_ranks(rest.drop_first(), seq![rest[0]] + rank)
    }
}

/// Writes each rank of a notation right to left: the same deployment seen
/// in a mirror.
pub fn mirror(deployment: &str) -> (res: String)
    ensures
        res@ == mirror_ranks(deployment@, seq![]),
{
    let chars = chars_of(deployment);
    let mut out: Vec<char> = Vec::new();
    let mut rank: Vec<char> = Vec::new();
    let mut i: usize = 0;
    proof {
        assert(chars@.skip(0) =~= chars@);
    }
    while i < chars.len()
        invariant
            chars@ == deployment@,
            i <= chars@.len(),
            out@ + mirror_ranks(chars@.skip(i as int), rank@) == mirror_ranks(deployment@, seq![]),
        decreases chars@.len() - i,
    {
        let c = chars[i];
        proof {
            assert(chars@.skip(i as int)[0] == c);
            assert(chars@.skip(i as int).drop_first() =~= chars@.skip(i + 1));
        }
        if c == '/' {
            let ghost before = out@;
            let ghost r = rank@;
            out.append(&mut rank);
            out.push('/');
            proof {
                assert(rank@ =~= Seq::<char>::empty());
                assert(out@ =~= before + r + seq!['/']);
                assert(before + (r + seq!['/'] + mirror_ranks(chars@.skip(i + 1), seq![])) =~= out@
                    + mirror_ranks(chars@.skip(i + 1), seq![]));
            }
        } else {
            let ghost r = rank@;
            rank.insert(0, c);
            proof {
                assert(rank@ =~= seq![c] + r);
            }
        }
        i += 1;
    }
    proof {
        assert(chars@.skip(i as int) =~= Seq::<char>::empty());
    }
    out.append(&mut rank);
    string_of(&out)
}

/// The characters in reverse order.
pub open spec fn reversed(s: Seq<char>) -> Seq<char>
    decreases s.len(),
{
    if s.len() == 0 {
        seq![]
    } else {
        reversed(s.drop_first()) + seq![s[0]]
    }
}

proof fn lemma_reversed_concat(a: Seq<char>, b: Seq<char>)
    ensures
        reversed(a + b) == reversed(b) + reversed(a),
    decreases a.len(),
{
    if a.len() == 0 {
        assert(a + b =~= b);
        assert(reversed(b) + reversed(a) =~= reversed(b));
    } else {
        assert((a + b).drop_first() =~= a.drop_first() + b);
        lemma_reversed_concat(a.drop_first(), b);
        assert(reversed(a + b) =~= reversed(b) + reversed(a));
    }
}

proof fn lemma_reversed_twice(s: Seq<char>)
    ensures
        reversed(reversed(s)) == s,
        reversed(s).len() == s.len(),
        forall|i: int| 0 <= i < s.len() ==> #[trigger] reversed(s)[i] == s[s.len() - 1 - i],
    decreases s.len(),
{
    if s.len() > 0 {
        lemma_reversed_twice(s.drop_first());
        lemma_reversed_concat(reversed(s.drop_first()), seq![s[0]]);
        assert(reversed(seq![s[0]]) =~= seq![s[0]]) by {
            assert(seq![s[0]].drop_first() =~= Seq::<char>::empty());
            assert(reversed(Seq::<char>::empty()) == Seq::<char>::empty());
            assert(reversed(seq![s[0]]) == reversed(seq![s[0]].drop_first()) + seq![seq![s[0]][0]]);
        }
        assert(seq![s[0]] + s.drop_first() =~= s);
    }
}

/// Reading a rank without `/` only reverses it onto the pending characters.
proof fn lemma_mirror_segment(seg: Seq<char>, t: Seq<char>, acc: Seq<char>)
    requires
        forall|i: int| 0 <= i < seg.len() ==> seg[i] != '/',
    ensures
        mirror_ranks(seg + t, acc) == mirror_ranks(t, reversed(seg) + acc),
    decreases seg.len(),
{
    if seg.len() == 0 {
        assert(seg + t =~= t);
        assert(reversed(seg) + acc =~= acc);
    } else {
        assert((seg + t)[0] == seg[0]);
        assert((seg + t).drop_first() =~= seg.drop_first() + t);
        lemma_mirror_segment(seg.drop_first(), t, seq![seg[0]] + acc);
        assert(reversed(seg.drop_first()) + (seq![seg[0]] + acc) =~= reversed(seg) + acc);
    }
}

/// Index of the first `/`, or the length.
pub open spec fn first_slash(s: Seq<char>) -> int
    decreases s.len(),
{
    if s.len() == 0 {
        0
    } else if s[0] == '/' {
        0
    } else {
        1 + first_slash(s.drop_first())
    }
}

proof fn lemma_first_slash(s: Seq<char>)
    ensures
        0 <= first_slash(s) <= s.len(),
        forall|i: int| 0 <= i < first_slash(s) ==> s[i] != '/',
        first_slash(s) < s.len() ==> s[first_slash(s)] == '/',
    decreases s.len(),
{
    if s.len() > 0 && s[0] != '/' {
        lemma_first_slash(s.drop_first());
        assert forall|i: int| 0 <= i < first_slash(s) implies s[i] != '/' by {
            if i > 0 {
                assert(s[i] == s.drop_first()[i - 1]);
            }
        }
    }
}

/// Mirroring the ranks: the first rank reversed, then the rest mirrored.
proof fn lemma_mirror_split(s: Seq<char>)
    ensures
        ({
            let i = first_slash(s);
            if i < s.len() {
                mirror_ranks(s, seq![]) == reversed(s.take(i)) + seq!['/'] + mirror_ranks(s.skip(i + 1), seq![])
            } else {
                mirror_ranks(s, seq![]) == reversed(s)
            }
        }),
{
    lemma_first_slash(s);
    let i = first_slash(s);
    let seg = s.take(i);
    let t = s.skip(i);
    assert(seg + t =~= s);
    lemma_mirror_segment(seg, t, seq![]);
    assert(reversed(seg) + seq![] =~= reversed(seg));
    if i < s.len() {
        assert(t[0] == '/');
        assert(t.drop_first() =~= s.skip(i + 1));
        assert(mirror_ranks(t, reversed(seg)) == reversed(seg) + seq!['/'] + mirror_ranks(s.skip(i + 1), seq![]));
    } else {
        assert(t =~= Seq::<char>::empty());
        assert(seg =~= s);
    }
}

/// Mirroring a deployment twice gives it back.
pub proof fn lemma_mirror_twice(s: Seq<char>)
    ensures
        mirror_ranks(mirror_ranks(s, seq![]), seq![]) == s,
    decreases s.len(),
{
    lemma_mirror_split(s);
    lemma_first_slash(s);
    let i = first_slash(s);
    let seg = s.take(i);
    let m = mirror_ranks(s, seq![]);
    lemma_reversed_twice(seg);
    let rseg = reversed(seg);
    assert forall|k: int| 0 <= k < rseg.len() implies rseg[k] != '/' by {
        assert(rseg[k] == seg[seg.len() - 1 - k]);
    }
    if i < s.len() {
        let rest = s.skip(i + 1);
        let mr = mirror_ranks(rest, seq![]);
        lemma_mirror_twice(rest);
        assert(m == rseg + seq!['/'] + mr);
        lemma_mirror_segment(rseg, seq!['/'] + mr, seq![]);
        assert(rseg + (seq!['/'] + mr) =~= m);
        assert((seq!['/'] + mr)[0] == '/');
        assert((seq!['/'] + mr).drop_first() =~= mr);
        assert(reversed(rseg) + seq![] =~= seg);
        assert(mirror_ranks(m, seq![]) == seg + seq!['/'] + mirror_ranks(mr, seq![]));
        assert(seg + seq!['/'] + rest =~= s) by {
            assert(s[i] == '/');
        }
    } else {
        assert(seg =~= s);
        lemma_mirror_segment(rseg, seq![], seq![]);
        assert(rseg + seq![] =~= rseg);
        assert(reversed(rseg) + seq![] =~= seg);
        assert(mirror_ranks(seq![], seg) == seg);
    }
}

/// The data set's deployment `index`, mirrored where `mirrored` holds.
pub fn dataset_pick(index: usize, mirrored: bool) -> (res: String)
    requires
        index < DATASET_SIZE,
    ensures
        res@ == if mirrored {
            mirror_ranks(dataset_entry(index as int), seq![])
        } else {
            dataset_entry(index as int)
        },
{
    let deployment = dataset_str(index);
    if mirrored {
        mirror(deployment)
    } else {
        string_of(&chars_of(deployment))
    }
}

/// A deployment of the data set, drawn at random, mirrored half the time.
pub fn dataset() -> (res: String)
    ensures
        exists|i: int|
            0 <= i < DATASET_SIZE && (res@ == dataset_entry(i) || res@ == mirror_ranks(dataset_entry(i), seq![])),
{
    let index = random_below(DATASET_SIZE);
    let mirrored = random_bool();
    dataset_pick(index, mirrored)
}

/// A letter in upper case (`char::to_ascii_uppercase`): `a` to `z` become
/// `A` to `Z`, other characters stay.
pub open spec fn upper(c: char) -> char {
    if 'a' <= c <= 'z' {
        ((c as u32) - 32) as char
    } else {
        c
    }
}

/// A letter in lower case (`char::to_ascii_lowercase`).
pub open spec fn lower(c: char) -> char {
    if 'A' <= c <= 'Z' {
        ((c as u32) + 32) as char
    } else {
        c
    }
}

pub open spec fn upper_all(s: Seq<char>) -> Seq<char> {
    Seq::new(s.len(), |i: int| upper(s[i]))
}

pub open spec fn lower_all(s: Seq<char>) -> Seq<char> {
    Seq::new(s.len(), |i: int| lower(s[i]))
}

/// The ranks of a notation (the parts between the `/`) in reverse order.
pub open spec fn ranks_reversed(s: Seq<char>) -> Seq<char>
    decreases s.len(),
{
    let i = first_slash(s);
    if 0 <= i < s.len() {
        ranks_reversed(s.skip(i + 1)) + seq!['/'] + s.take(i)
    } else {
        s
    }
}

fn upper_char(c: char) -> (res: char)
    ensures
        res == upper(c),
{
    if 'a' <= c && c <= 'z' {
        ((c as u32) - 32) as u8 as char
    } else {
        c
    }
}

fn lower_char(c: char) -> (res: char)
    ensures
        res == lower(c),
{
    if 'A' <= c && c <= 'Z' {
        ((c as u32) + 32) as u8 as char
    } else {
        c
    }
}

/// The two deployments of a game in the notation of the board: red's in
/// upper case with its ranks in reverse order (red deploys from its own
/// point of view, from the first rank up), blue's in lower case.
pub fn deployment(red: &str, blue: &str) -> (res: (String, String))
    ensures
        res.0@ == ranks_reversed(upper_all(red@)),
        res.1@ == lower_all(blue@),
{
    let r = chars_of(red);
    let mut up: Vec<char> = Vec::new();
    let mut i: usize = 0;
    while i < r.len()
        invariant
            r@ == red@,
            i <= r@.len(),
            up@ == upper_all(red@).take(i as int),
        decreases r@.len() - i,
    {
        up.push(upper_char(r[i]));
        i += 1;
        proof {
            assert(up@ =~= upper_all(red@).take(i as int));
        }
    }
    proof {
        assert(upper_all(red@).take(r@.len() as int) =~= upper_all(red@));
    }
    // the ranks, the last one first
    let mut tail: Vec<char> = Vec::new();
    let mut segment: Vec<char> = Vec::new();
    let mut j: usize = 0;
    let ghost all = upper_all(red@);
    let ghost mut start: int = 0;
    proof {
        assert(all.skip(0) =~= all);
        assert(tail@ + seq![] =~= tail@);
    }
    while j < up.len()
        invariant
            up@ == all,
            0 <= start <= j <= all.len(),
            segment@ == all.subrange(start, j as int),
            forall|k: int| start <= k < j ==> all[k] != '/',
            ranks_reversed(all) == ranks_reversed(all.skip(start)) + tail@,
        decreases all.len() - j,
    {
        let c = up[j];
        if c == '/' {
            proof {
                let rest = all.skip(start);
                let i = j - start;
                lemma_first_slash_at(rest, i);
                assert(rest.take(i) =~= segment@);
                assert(rest.skip(i + 1) =~= all.skip(j + 1));
                assert(ranks_reversed(rest) == ranks_reversed(all.skip(j + 1)) + seq!['/'] + segment@);
            }
            let mut next: Vec<char> = Vec::new();
            next.push('/');
            next.append(&mut segment);
            next.append(&mut tail);
            tail = next;
            proof {
                start = j + 1;
            }
        } else {
            segment.push(c);
        }
        j += 1;
        proof {
            assert(segment@ =~= all.subrange(start, j as int));
        }
    }
    proof {
        let rest = all.skip(start);
        assert(segment@ =~= rest);
        lemma_no_slash(rest);
    }
    segment.append(&mut tail);
    let l = chars_of(blue);
    let mut low: Vec<char> = Vec::new();
    let mut k: usize = 0;
    while k < l.len()
        invariant
            l@ == blue@,
            k <= l@.len(),
            low@ == lower_all(blue@).take(k as int),
        decreases l@.len() - k,
    {
        low.push(lower_char(l[k]));
        k += 1;
        proof {
            assert(low@ =~= lower_all(blue@).take(k as int));
        }
    }
    proof {
        assert(lower_all(blue@).take(l@.len() as int) =~= lower_all(blue@));
    }
    (string_of(&segment), string_of(&low))
}

proof fn lemma_first_slash_at(s: Seq<char>, i: int)
    requires
        0 <= i < s.len(),
        s[i] == '/',
        forall|k: int| 0 <= k < i ==> s[k] != '/',
    ensures
        first_slash(s) == i,
    decreases i,
{
    if i > 0 {
        lemma_first_slash_at(s.drop_first(), i - 1);
    }
}

proof fn lemma_no_slash(s: Seq<char>)
    requires
        forall|k: int| 0 <= k < s.len() ==> s[k] != '/',
    ensures
        first_slash(s) == s.len(),
        ranks_reversed(s) == s,
    decreases s.len(),
{
    if s.len() > 0 {
        lemma_no_slash(s.drop_first());
    }
}

/// The notation of a game between two deployments (see `deployment`):
/// blue's ranks at the top, two empty ranks, red's at the bottom, red to
/// move.
pub fn game_notation(red: &str, blue: &str) -> (res: String)
    ensures
        res@ == lower_all(blue@) + "/8/8/"@ + ranks_reversed(upper_all(red@)) + " r"@,
{
    let (red, blue) = deployment(red, blue);
    let mut out = chars_of(blue.as_str());
    let mut middle = chars_of("/8/8/");
    let mut bottom = chars_of(red.as_str());
    let mut side = chars_of(" r");
    out.append(&mut middle);
    out.append(&mut bottom);
    out.append(&mut side);
    string_of(&out)
}

/// The state at the start of a game between two deployments (see
/// `game_notation`), when its notation can be read and its board is well
/// formed.
pub fn position(red: &str, blue: &str) -> (res: Option<StrategoState>)
    ensures
        ({
            let notation = lower_all(blue@) + "/8/8/"@ + ranks_reversed(upper_all(red@)) + " r"@;
            &&& res is Some <==> (read_notation(notation) is Some && board_wf(read_notation(notation).unwrap()))
            &&& res matches Some(s) ==> s@.board == read_notation(notation).unwrap() && consistent(s@)
        }),
{
    let notation = game_notation(red, blue);
    StrategoState::start(notation.as_str())
}

/// A deployment of `pieces` placed by some valid draws.
pub open spec fn drawn_deployment(s: Seq<char>, pieces: Seq<char>) -> bool {
    exists|d: Seq<usize>| #[trigger] valid_draws(d) && placed(placed_by(pieces, d, 10), pieces)
        && s == deployment_notation(placed_by(pieces, d, 10))
}

/// A random deployment of blue: the ten pieces on random squares of the
/// first three ranks, from blue's point of view.
pub fn random() -> (res: String)
    ensures
        drawn_deployment(res@, blue_pieces()),
{
    let pieces: Vec<char> = vec!['f', 's', 'c', 'c', 'd', 'd', 'g', 'm', 'b', 'b'];
    proof {
        assert(pieces@ =~= blue_pieces());
    }
    let cells = random_cells(&pieces);
    notation(&cells)
}

} // verus!
