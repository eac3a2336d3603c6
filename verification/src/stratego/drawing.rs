//! The board as text: a drawing of the squares, file letters and rank
//! numbers, followed by the notation of the position.
use crate::bitboard::bit;
use crate::stratego::moves::decimal;
use crate::bitboard::{file_of, group_bits, rank_of};
use crate::stratego::position::{
    empty_position, first_space, lakes, notation_step, piece_at, piece_from, read_board, read_notation, symbol_piece, toggled,
    NotationState, PositionView,
};
use crate::stratego::rules::board_wf;
use crate::stratego::{Position, StrategoState};
use crate::text::{chars_of, string_of};
use vstd::prelude::*;

verus! {

/// No square is in two piece bitboards.
pub open spec fn single_pieces(p: PositionView) -> bool {
    forall|j: int, k: int, sq: int|
        2 <= j < k < 10 ==> !(#[trigger] bit(p.bb[j], sq) && #[trigger] bit(p.bb[k], sq))
}

/// The symbol of a piece, upper case for red.
pub open spec fn symbol(piece: int, red: bool) -> char {
    seq!['F', 'S', 'C', 'D', 'G', 'M', 'X', 'B', 'f', 's', 'c', 'd', 'g', 'm', 'x', 'b'][piece - 2 + if red {
        0int
    } else {
        8int
    }]
}

/// The character of a square in the drawing: `~` on a lake, the symbol of
/// the piece on it (red where red's bitboard holds the square), a space on an
/// empty square.
pub open spec fn cell_char(p: PositionView, sq: int) -> char {
    if bit(lakes(), sq) {
        '~'
    } else if piece_at(p.bb, sq) < 10 {
        symbol(piece_at(p.bb, sq), bit(p.bb[0], sq))
    } else {
        ' '
    }
}

pub open spec fn cells(p: PositionView) -> Seq<char> {
    Seq::new(64, |sq: int| cell_char(p, sq))
}

/// The notation of one rank: symbols, and each run of empty squares and
/// lakes as its length (`gap` of them pending before `row`).
pub open spec fn row_notation(row: Seq<char>, gap: nat) -> Seq<char>
    decreases row.len(),
{
    if row.len() == 0 {
        if gap > 0 {
            decimal(gap)
        } else {
            seq![]
        }
    } else if row[0] == ' ' || row[0] == '~' {
        row_notation(row.drop_first(), gap + 1)
    } else {
        (if gap > 0 {
            decimal(gap)
        } else {
            seq![]
        }) + seq![row[0]] + row_notation(row.drop_first(), 0)
    }
}

/// The squares of rank `r`.
pub open spec fn rank_cells(c: Seq<char>, r: int) -> Seq<char> {
    c.subrange(8 * r, 8 * r + 8)
}

/// The notation of the ranks from the eighth down to rank `k`, separated by
/// `/`.
pub open spec fn notation_from(c: Seq<char>, k: int) -> Seq<char>
    decreases 8 - k,
{
    if k >= 7 {
        row_notation(rank_cells(c, 7), 0)
    } else {
        notation_from(c, k + 1) + seq!['/'] + row_notation(rank_cells(c, k), 0)
    }
}

/// The notation of a position: its board and the side to move.
pub open spec fn position_notation(p: PositionView) -> Seq<char> {
    notation_from(cells(p), 0) + seq![' ', if p.stm { 'b' } else { 'r' }]
}

/// The squares of a rank drawn between bars.
pub open spec fn cells_text(row: Seq<char>) -> Seq<char>
    decreases row.len(),
{
    if row.len() == 0 {
        seq![]
    } else {
        seq!['|', ' ', row[0], ' '] + cells_text(row.drop_first())
    }
}

pub open spec fn delimiter() -> Seq<char> {
    "+---+---+---+---+---+---+---+---+\n"@
}

/// The drawing of rank `r` with its number, and the line below it.
pub open spec fn row_text(c: Seq<char>, r: int) -> Seq<char> {
    cells_text(rank_cells(c, r)) + seq!['|', ' '] + decimal((r + 1) as nat) + seq!['\n'] + delimiter()
}

/// The drawings of the ranks from the eighth down to rank `k`.
pub open spec fn rows_from(c: Seq<char>, k: int) -> Seq<char>
    decreases 8 - k,
{
    if k >= 8 {
        seq![]
    } else {
        rows_from(c, k + 1) + row_text(c, k)
    }
}

/// The whole text of a position.
pub open spec fn position_text(p: PositionView) -> Seq<char> {
    delimiter() + rows_from(cells(p), 0) + "  a   b   c   d   e   f   g   h"@ + "\n\nNotation: "@
        + position_notation(p)
}

fn push_str(out: &mut Vec<char>, s: &str)
    ensures
        final(out)@ == old(out)@ + s@,
{
    let mut chars = chars_of(s);
    out.append(&mut chars);
}

/// Appends the notation of a rank.
fn push_row_notation(out: &mut Vec<char>, row: &Vec<char>)
    requires
        row@.len() == 8,
    ensures
        final(out)@ == old(out)@ + row_notation(row@, 0),
{
    let mut spaces: u8 = 0;
    let mut j: usize = 0;
    proof {
        assert(row@.skip(0) =~= row@);
    }
    while j < 8
        invariant
            row@.len() == 8,
            j <= 8,
            spaces <= j,
            old(out)@ + row_notation(row@, 0) == out@ + row_notation(row@.skip(j as int), spaces as nat),
        decreases 8 - j,
    {
        let c = row[j];
        proof {
            assert(row@.skip(j as int)[0] == c);
            assert(row@.skip(j as int).drop_first() =~= row@.skip(j + 1));
        }
        if c == ' ' || c == '~' {
            spaces += 1;
        } else {
            if spaces > 0 {
                out.push((spaces + 48) as char);
            }
            out.push(c);
            spaces = 0;
        }
        j += 1;
    }
    if spaces > 0 {
        out.push((spaces + 48) as char);
    }
    proof {
        assert(row@.skip(8) =~= Seq::<char>::empty());
    }
}

impl Position {
    /// The character of each square (see `cell_char`).
    fn chars(&self) -> (res: Vec<char>)
        ensures
            res@ == cells(self@),
    {
        let mut out: Vec<char> = Vec::new();
        let mut sq: u8 = 0;
        while sq < 64
            invariant
                sq <= 64,
                out@ == cells(self@).take(sq as int),
            decreases 64 - sq,
        {
            proof {
                crate::bitboard::lemma_mask_bit(lakes(), sq as u64);
                crate::bitboard::lemma_mask_bit(self@.bb[0], sq as u64);
            }
            let c = if (Position::LAKES & (1u64 << (sq as u64))) != 0 {
                '~'
            } else {
                let piece = self.piece(sq);
                if piece < 10 {
                    proof {
                        crate::stratego::rules::lemma_piece_at_bit(self@.bb, sq as int);
                    }
                    let red = (self.get(0) & (1u64 << (sq as u64))) != 0;
                    let index = if red {
                        piece - 2
                    } else {
                        piece + 6
                    };
                    let symbols = Position::SYMBOLS;
                    proof {
                        assert(symbols@ =~= seq!['F', 'S', 'C', 'D', 'G', 'M', 'X', 'B', 'f', 's', 'c', 'd', 'g', 'm', 'x', 'b']);
                    }
                    symbols[index]
                } else {
                    ' '
                }
            };
            out.push(c);
            proof {
                assert(out@ =~= cells(self@).take(sq + 1));
            }
            sq += 1;
        }
        proof {
            assert(cells(self@).take(64) =~= cells(self@));
        }
        out
    }

    /// The text of the position: the board drawn rank by rank from the
    /// eighth down, the file letters, and the notation of the position.
    pub fn to_string(&self) -> (res: String)
        requires
            single_pieces(self@),
        ensures
            res@ == position_text(self@),
    {
        let c = self.chars();
        let mut out: Vec<char> = Vec::new();
        let mut notation: Vec<char> = Vec::new();
        push_str(&mut out, "+---+---+---+---+---+---+---+---+\n");
        let mut r: usize = 8;
        while r > 0
            invariant
                c@ == cells(self@),
                r <= 8,
                out@ == delimiter() + rows_from(c@, r as int),
                r < 8 ==> notation@ == notation_from(c@, r as int),
                r == 8 ==> notation@ == Seq::<char>::empty(),
            decreases r,
        {
            r -= 1;
            let ghost before = out@;
            let ghost before_notation = notation@;
            let mut f: usize = 0;
            let mut row: Vec<char> = Vec::new();
            let ghost row_start = out@;
            while f < 8
                invariant
                    c@.len() == 64,
                    r < 8,
                    f <= 8,
                    row@ == rank_cells(c@, r as int).take(f as int),
                    out@ == row_start + cells_text(rank_cells(c@, r as int).take(f as int)),
                decreases 8 - f,
            {
                let cell = c[8 * r + f];
                let ghost prev = rank_cells(c@, r as int).take(f as int);
                out.push('|');
                out.push(' ');
                out.push(cell);
                out.push(' ');
                row.push(cell);
                proof {
                    lemma_cells_text_push(prev, cell);
                    assert(rank_cells(c@, r as int).take(f + 1) =~= prev.push(cell));
                    assert(out@ =~= row_start + cells_text(prev.push(cell)));
                }
                f += 1;
            }
            proof {
                assert(rank_cells(c@, r as int).take(8) =~= rank_cells(c@, r as int));
            }
            out.push('|');
            out.push(' ');
            out.push(((r + 1) as u8 + 48) as char);
            out.push('\n');
            push_str(&mut out, "+---+---+---+---+---+---+---+---+\n");
            proof {
                assert(decimal((r + 1) as nat) == seq![((r + 1) as u8 + 48) as char]);
                assert(row_start == before);
                assert(out@ =~= before + cells_text(rank_cells(c@, r as int)) + seq!['|', ' ', ((r + 1) as u8 + 48) as char, '\n'] + delimiter());
                assert(out@ =~= before + row_text(c@, r as int));
            }
            if r < 7 {
                notation.push('/');
            }
            push_row_notation(&mut notation, &row);
            proof {
                if r == 7 {
                    assert(notation@ =~= notation_from(c@, 7));
                } else {
                    assert(notation@ =~= before_notation + seq!['/'] + row_notation(rank_cells(c@, r as int), 0));
                }
            }
        }
        push_str(&mut out, "  a   b   c   d   e   f   g   h");
        push_str(&mut out, "\n\nNotation: ");
        notation.push(' ');
        notation.push(if self.stm() {
            'b'
        } else {
            'r'
        });
        out.append(&mut notation);
        proof {
            assert(out@ =~= position_text(self@));
        }
        string_of(&out)
    }
}

proof fn lemma_cells_text_push(s: Seq<char>, c: char)
    ensures
        cells_text(s.push(c)) == cells_text(s) + seq!['|', ' ', c, ' '],
    decreases s.len(),
{
    if s.len() == 0 {
        assert(s.push(c).drop_first() =~= Seq::<char>::empty());
        assert(s.push(c)[0] == c);
        assert(cells_text(Seq::<char>::empty()) == Seq::<char>::empty());
        assert(cells_text(s.push(c)) =~= seq!['|', ' ', c, ' ']);
    } else {
        assert(s.push(c).drop_first() =~= s.drop_first().push(c));
        lemma_cells_text_push(s.drop_first(), c);
        assert(cells_text(s.push(c)) =~= cells_text(s) + seq!['|', ' ', c, ' ']);
    }
}

impl StrategoState {
    /// The text of the board (see `Position::to_string`).
    pub fn to_string(&self) -> (res: String)
        requires
            single_pieces(self@.board),
        ensures
            res@ == position_text(self@.board),
    {
        self.board().to_string()
    }
}

/// No piece stands on a lake.
pub open spec fn lakes_free(p: PositionView) -> bool {
    forall|sq: int| #[trigger] bit(lakes(), sq) ==> !bit(p.bb[0], sq) && !bit(p.bb[1], sq)
}

/// Reading the board part of a notation from the state `st` on.
pub open spec fn read_board_from(st: Option<NotationState>, chars: Seq<char>) -> Option<NotationState>
    decreases chars.len(),
{
    if chars.len() == 0 {
        st
    } else {
        notation_step(read_board_from(st, chars.drop_last()), chars.last())
    }
}

proof fn lemma_read_board_start(chars: Seq<char>)
    ensures
        read_board(chars) == read_board_from(Some(NotationState { pos: empty_position(), file: 0, rank: 7 }), chars),
    decreases chars.len(),
{
    if chars.len() > 0 {
        lemma_read_board_start(chars.drop_last());
    }
}

proof fn lemma_read_board_concat(st: Option<NotationState>, a: Seq<char>, b: Seq<char>)
    ensures
        read_board_from(st, a + b) == read_board_from(read_board_from(st, a), b),
    decreases b.len(),
{
    if b.len() == 0 {
        assert(a + b =~= a);
    } else {
        assert((a + b).drop_last() =~= a + b.drop_last());
        assert((a + b).last() == b.last());
        lemma_read_board_concat(st, a, b.drop_last());
    }
}

proof fn lemma_read_one(st: Option<NotationState>, c: char)
    ensures
        read_board_from(st, seq![c]) == notation_step(st, c),
{
    assert(seq![c].drop_last() =~= Seq::<char>::empty());
    assert(read_board_from(st, seq![c].drop_last()) == st);
}

/// Square `sq` comes before file `f` of rank `r` in a notation, which runs
/// from the eighth rank down and along each rank from the a-file.
pub open spec fn read_before(sq: int, r: int, f: int) -> bool {
    rank_of(sq) > r || (rank_of(sq) == r && file_of(sq) < f)
}

/// The state after reading the squares before file `f` of rank `r` of `p`:
/// their pieces, nothing else, on a board that is otherwise as at the start.
pub open spec fn read_upto(p: PositionView, s: NotationState, r: int, f: int) -> bool {
    &&& s.pos.bb.len() == 10
    &&& s.pos == (PositionView { bb: s.pos.bb, hash: s.pos.hash, ..empty_position() })
    &&& forall|k: int, sq: int| 0 <= k < 10 ==> #[trigger] bit(s.pos.bb[k], sq) == (bit(p.bb[k], sq) && read_before(sq, r, f))
}

/// The empty squares of a drawing: no piece of either side, no piece bit.
proof fn lemma_empty_cell(p: PositionView, sq: int, k: int)
    requires
        board_wf(p),
        lakes_free(p),
        0 <= sq < 64,
        0 <= k < 10,
        cell_char(p, sq) == ' ' || cell_char(p, sq) == '~',
    ensures
        !bit(p.bb[k], sq),
{
    if bit(p.bb[k], sq) {
        if k >= 2 {
            assert(bit(p.bb[0], sq) || bit(p.bb[1], sq));
        }
        assert(2 <= piece_at(p.bb, sq) < 10);
    }
}

proof fn lemma_symbol(piece: int, red: bool)
    requires
        2 <= piece < 10,
    ensures
        symbol_piece(symbol(piece, red)) == piece,
        ('a' <= symbol(piece, red) <= 'z') == !red,
        symbol(piece, red) != ' ',
        symbol(piece, red) != '~',
        symbol(piece, red) != '/',
        !crate::text::is_numeric_spec(symbol(piece, red)),
{
}

/// An empty square or a lake adds nothing to the state.
proof fn lemma_skip_empty(p: PositionView, s: NotationState, r: int, j: int)
    requires
        board_wf(p),
        lakes_free(p),
        0 <= r < 8,
        0 <= j < 8,
        read_upto(p, s, r, j),
        cell_char(p, 8 * r + j) == ' ' || cell_char(p, 8 * r + j) == '~',
    ensures
        read_upto(p, s, r, j + 1),
{
    assert forall|k: int, q: int| 0 <= k < 10 implies #[trigger] bit(s.pos.bb[k], q) == (bit(p.bb[k], q) && read_before(
        q,
        r,
        j + 1,
    )) by {
        if q == 8 * r + j {
            lemma_empty_cell(p, q, k);
        }
    }
}

/// The digits of a run of empty squares move the file on.
proof fn lemma_digit_step(s: NotationState, gap: int)
    requires
        0 < gap <= 8,
        s.file + gap <= 8,
    ensures
        read_board_from(Some(s), decimal(gap as nat)) == Some(NotationState { file: (s.file + gap) as u32, ..s }),
{
    let d = (gap + '0' as nat) as char;
    assert(decimal(gap as nat) == seq![d]);
    lemma_read_one(Some(s), d);
    assert(d as u32 == gap + 48);
    assert(crate::text::is_numeric_spec(d));
}

/// The symbol of a piece places it.
proof fn lemma_piece_step(p: PositionView, s: NotationState, r: int, j: int)
    requires
        board_wf(p),
        lakes_free(p),
        0 <= r < 8,
        0 <= j < 8,
        s.file == j,
        s.rank == r,
        read_upto(p, s, r, j),
        cell_char(p, 8 * r + j) != ' ',
        cell_char(p, 8 * r + j) != '~',
    ensures
        read_board_from(Some(s), seq![cell_char(p, 8 * r + j)]) matches Some(t) && t.file == j + 1 && t.rank == r
            && read_upto(p, t, r, j + 1),
{
    broadcast use group_bits;

    let sq = 8 * r + j;
    let ch = cell_char(p, sq);
    let piece = piece_at(p.bb, sq);
    let red = bit(p.bb[0], sq);
    assert(!bit(lakes(), sq));
    assert(piece < 10);
    crate::stratego::position::lemma_piece_from_range(p.bb, sq, 2);
    crate::stratego::rules::lemma_piece_at_bit(p.bb, sq);
    lemma_symbol(piece, red);
    lemma_read_one(Some(s), ch);
    let side = if red { 0int } else { 1int };
    assert(bit(p.bb[side], sq)) by {
        if !red {
            assert(bit(p.bb[0], sq) || bit(p.bb[1], sq));
        }
    }
    let t = NotationState { pos: toggled(s.pos, side, piece, sq), file: (j + 1) as u32, ..s };
    assert(notation_step(Some(s), ch) == Some(t));
    assert forall|k: int, q: int| 0 <= k < 10 implies #[trigger] bit(t.pos.bb[k], q) == (bit(p.bb[k], q) && read_before(
        q,
        r,
        j + 1,
    )) by {
        assert(bit(1u64 << (sq as u64), q) == (q == sq));
        if q == sq && bit(p.bb[k], q) {
            if k >= 2 {
                assert(piece_at(p.bb, sq) == k);
            } else if k != side {
                assert(!(bit(p.bb[0], sq) && bit(p.bb[1], sq)));
            }
        }
    }
    assert(t.pos =~= (PositionView { bb: t.pos.bb, hash: t.pos.hash, ..empty_position() }));
}

/// Reading the notation of the rest of rank `r`, from file `j` on with `gap`
/// empty squares pending, places the pieces of the rank.
proof fn lemma_read_row(p: PositionView, s: NotationState, r: int, j: int, gap: int)
    requires
        board_wf(p),
        lakes_free(p),
        0 <= r < 8,
        0 <= gap <= j <= 8,
        s.file == j - gap,
        s.rank == r,
        read_upto(p, s, r, j),
    ensures
        read_board_from(Some(s), row_notation(rank_cells(cells(p), r).skip(j), gap as nat)) matches Some(t) && t.file == 8
            && t.rank == r && read_upto(p, t, r, 8),
    decreases 8 - j,
{
    let c = cells(p);
    let row = rank_cells(c, r).skip(j);
    if j == 8 {
        assert(row =~= Seq::<char>::empty());
        if gap > 0 {
            lemma_digit_step(s, gap);
        } else {
            assert(read_board_from(Some(s), Seq::<char>::empty()) == Some(s));
        }
    } else {
        let sq = 8 * r + j;
        assert(row[0] == c[sq]);
        assert(row.drop_first() =~= rank_cells(c, r).skip(j + 1));
        let ch = c[sq];
        assert(ch == cell_char(p, sq));
        if ch == ' ' || ch == '~' {
            lemma_skip_empty(p, s, r, j);
            lemma_read_row(p, s, r, j + 1, gap + 1);
        } else {
            let pre: Seq<char> = if gap > 0 {
                decimal(gap as nat)
            } else {
                seq![]
            };
            let rest = row_notation(row.drop_first(), 0);
            assert(row_notation(row, gap as nat) == pre + seq![ch] + rest);
            lemma_read_board_concat(Some(s), pre + seq![ch], rest);
            lemma_read_board_concat(Some(s), pre, seq![ch]);
            let s1 = NotationState { file: j as u32, ..s };
            if gap > 0 {
                lemma_digit_step(s, gap);
            } else {
                assert(pre =~= Seq::<char>::empty());
                assert(read_board_from(Some(s), pre) == Some(s));
            }
            assert(read_board_from(Some(s), pre) == Some(s1));
            lemma_piece_step(p, s1, r, j);
            let s2 = read_board_from(Some(s1), seq![ch]).unwrap();
            lemma_read_row(p, s2, r, j + 1, 0);
        }
    }
}

proof fn lemma_first_space(a: Seq<char>, b: Seq<char>)
    requires
        forall|i: int| 0 <= i < a.len() ==> a[i] != ' ',
    ensures
        first_space(a + b) == a.len() + first_space(b),
    decreases a.len(),
{
    if a.len() > 0 {
        assert((a + b).drop_first() =~= a.drop_first() + b);
        lemma_first_space(a.drop_first(), b);
    } else {
        assert(a + b =~= b);
    }
}

proof fn lemma_row_no_space(row: Seq<char>, gap: nat)
    requires
        gap + row.len() <= 9,
    ensures
        forall|i: int| 0 <= i < row_notation(row, gap).len() ==> row_notation(row, gap)[i] != ' ',
    decreases row.len(),
{
    let out = row_notation(row, gap);
    let pre: Seq<char> = if gap > 0 {
        decimal(gap)
    } else {
        seq![]
    };
    if gap > 0 {
        let d = (gap + '0' as nat) as char;
        assert(pre == seq![d]);
        assert(d as u32 == gap + 48);
        assert(d != ' ');
    }
    assert forall|i: int| 0 <= i < pre.len() implies pre[i] != ' ' by {}
    if row.len() == 0 {
        assert(out == pre);
    } else if row[0] == ' ' || row[0] == '~' {
        lemma_row_no_space(row.drop_first(), gap + 1);
        assert(out == row_notation(row.drop_first(), gap + 1));
    } else {
        lemma_row_no_space(row.drop_first(), 0);
        let rest = row_notation(row.drop_first(), 0);
        assert(out == pre + seq![row[0]] + rest);
        assert forall|i: int| 0 <= i < out.len() implies out[i] != ' ' by {
            if i >= pre.len() + 1 {
                assert(out[i] == rest[i - pre.len() - 1]);
            } else if i == pre.len() {
                assert(out[i] == row[0]);
            } else {
                assert(out[i] == pre[i]);
            }
        }
    }
}

proof fn lemma_notation_no_space(p: PositionView, k: int)
    requires
        0 <= k <= 7,
    ensures
        forall|i: int| 0 <= i < notation_from(cells(p), k).len() ==> notation_from(cells(p), k)[i] != ' ',
    decreases 8 - k,
{
    let row = row_notation(rank_cells(cells(p), k), 0);
    lemma_row_no_space(rank_cells(cells(p), k), 0);
    if k < 7 {
        lemma_notation_no_space(p, k + 1);
        let above = notation_from(cells(p), k + 1);
        let out = notation_from(cells(p), k);
        assert(out == above + seq!['/'] + row);
        assert forall|i: int| 0 <= i < out.len() implies out[i] != ' ' by {
            if i < above.len() {
                assert(out[i] == above[i]);
            } else if i > above.len() {
                assert(out[i] == row[i - above.len() - 1]);
            }
        }
    }
}

/// What the text of a position gives as its notation reads back as the
/// same board and side to move, for a well formed board with no piece on a
/// lake.
pub proof fn lemma_position_notation_reads_back(p: PositionView)
    requires
        board_wf(p),
        lakes_free(p),
    ensures
        read_notation(position_notation(p)) matches Some(q) && q.bb == p.bb && q.stm == p.stm,
{
    broadcast use group_bits;

    let c = cells(p);
    let init = NotationState { pos: empty_position(), file: 0, rank: 7 };
    assert(read_upto(p, init, 7, 0)) by {
        assert forall|k: int, sq: int| 0 <= k < 10 implies #[trigger] bit(init.pos.bb[k], sq) == (bit(p.bb[k], sq)
            && read_before(sq, 7, 0)) by {
            if 0 <= sq < 64 {
                assert(rank_of(sq) <= 7);
            }
        }
    }
    lemma_read_board_start(notation_from(c, 0));
    lemma_notation_rows(p, 0);
    let board = notation_from(c, 0);
    let ch = if p.stm { 'b' } else { 'r' };
    let text = position_notation(p);
    lemma_notation_no_space(p, 0);
    lemma_first_space(board, seq![' ', ch]);
    assert(first_space(seq![' ', ch]) == 0);
    assert(text.take(board.len() as int) =~= board);
    let rest = text.skip(board.len() as int + 1);
    assert(rest =~= seq![ch]);
    assert(first_space(rest) == 1) by {
        assert(rest.drop_first() =~= Seq::<char>::empty());
        assert(first_space(Seq::<char>::empty()) == 0);
        assert(rest[0] == ch);
    }
    assert(rest.take(1) =~= seq![ch]);
    let q = read_notation(text).unwrap();
    assert forall|i: int| 0 <= i < 10 implies q.bb[i] == p.bb[i] by {
        assert forall|sq: int| 0 <= sq < 64 implies (bit(q.bb[i], sq) <==> bit(p.bb[i], sq)) by {
            assert(rank_of(sq) >= 0);
        }
        crate::bitboard::lemma_bits_ext(q.bb[i], p.bb[i]);
    }
    assert(q.bb =~= p.bb);
    assert(ch == 'r' ==> !p.stm);
    if seq![ch] =~= seq!['r'] {
        assert(ch == 'r');
    }
}

/// Reading the notation of the ranks from the eighth down to rank `k`
/// places their pieces.
proof fn lemma_notation_rows(p: PositionView, k: int)
    requires
        board_wf(p),
        lakes_free(p),
        0 <= k <= 7,
    ensures
        read_board_from(Some(NotationState { pos: empty_position(), file: 0, rank: 7 }), notation_from(cells(p), k)) matches Some(t)
            && t.file == 8 && t.rank == k && read_upto(p, t, k, 8),
    decreases 8 - k,
{
    broadcast use group_bits;

    let c = cells(p);
    let init = NotationState { pos: empty_position(), file: 0, rank: 7 };
    if k == 7 {
        assert(read_upto(p, init, 7, 0)) by {
            assert forall|kk: int, sq: int| 0 <= kk < 10 implies #[trigger] bit(init.pos.bb[kk], sq) == (bit(p.bb[kk], sq)
                && read_before(sq, 7, 0)) by {
                if 0 <= sq < 64 {
                    assert(rank_of(sq) <= 7);
                }
            }
        }
        assert(rank_cells(c, 7).skip(0) =~= rank_cells(c, 7));
        lemma_read_row(p, init, 7, 0, 0);
    } else {
        lemma_notation_rows(p, k + 1);
        let above = notation_from(c, k + 1);
        let t = read_board_from(Some(init), above).unwrap();
        lemma_read_board_concat(Some(init), above + seq!['/'], row_notation(rank_cells(c, k), 0));
        lemma_read_board_concat(Some(init), above, seq!['/']);
        lemma_read_one(Some(t), '/');
        assert(!crate::text::is_numeric_spec('/'));
        let t2 = NotationState { file: 0, rank: (t.rank - 1) as u32, ..t };
        assert(notation_step(Some(t), '/') == Some(t2));
        assert(read_upto(p, t2, k, 0)) by {
            assert forall|kk: int, sq: int| 0 <= kk < 10 implies #[trigger] bit(t2.pos.bb[kk], sq) == (bit(p.bb[kk], sq)
                && read_before(sq, k, 0)) by {
                assert(bit(t.pos.bb[kk], sq) == (bit(p.bb[kk], sq) && read_before(sq, k + 1, 8)));
            }
        }
        assert(rank_cells(c, k).skip(0) =~= rank_cells(c, k));
        lemma_read_row(p, t2, k, 0, 0);
    }
}

/// A notation that the text of a position gives is given again by the
/// position read from it: reading and printing keep every printed notation.
pub proof fn lemma_printed_notation_stable(p: PositionView)
    requires
        board_wf(p),
        lakes_free(p),
    ensures
        read_notation(position_notation(p)) matches Some(q) && position_notation(q) == position_notation(p),
{
    lemma_position_notation_reads_back(p);
    let q = read_notation(position_notation(p)).unwrap();
    assert(cells(q) =~= cells(p));
}

/// A character that stands for a piece in a notation, in either case.
pub open spec fn is_symbol(c: char) -> bool {
    symbol_piece(c) >= 0
}

/// The bitboard of the squares below `k` where `f` holds.
pub open spec fn bits_where(f: spec_fn(int) -> bool, k: int) -> u64
    decreases k,
{
    if k <= 0 {
        0
    } else {
        bits_where(f, k - 1) | if f(k - 1) {
            1u64 << ((k - 1) as u64)
        } else {
            0u64
        }
    }
}

proof fn lemma_bits_where(f: spec_fn(int) -> bool, k: int)
    requires
        0 <= k <= 64,
    ensures
        forall|sq: int| #[trigger] bit(bits_where(f, k), sq) == (0 <= sq < k && f(sq)),
    decreases k,
{
    broadcast use group_bits;

    if k > 0 {
        lemma_bits_where(f, k - 1);
        assert forall|sq: int| #[trigger] bit(bits_where(f, k), sq) == (0 <= sq < k && f(sq)) by {
            assert(bit(bits_where(f, k - 1), sq) == (0 <= sq < k - 1 && f(sq)));
        }
    }
}

/// The character of square `sq` in ranks given as rows, first rank first.
pub open spec fn row_char(rows: Seq<Seq<char>>, sq: int) -> char {
    rows[rank_of(sq)][file_of(sq)]
}

/// Square `sq` of bitboard `i` of the board that the rows show: red for
/// upper case symbols, blue for lower case, and the piece of each symbol.
pub open spec fn row_has(rows: Seq<Seq<char>>, sq: int, i: int) -> bool {
    let c = row_char(rows, sq);
    if i == 0 {
        is_symbol(c) && !('a' <= c <= 'z')
    } else if i == 1 {
        is_symbol(c) && 'a' <= c <= 'z'
    } else {
        symbol_piece(c) == i
    }
}

/// The position whose board the rows show, with side `blue` to move.
pub open spec fn rows_position(rows: Seq<Seq<char>>, blue: bool) -> PositionView {
    PositionView {
        bb: Seq::new(10, |i: int| bits_where(|sq: int| row_has(rows, sq, i), 64)),
        stm: blue,
        ..empty_position()
    }
}

/// The notation of the rows from the eighth rank down to rank `k`: each
/// rank its symbols, each run of empty squares one digit, ranks separated
/// by `/`.
pub open spec fn rows_notation(rows: Seq<Seq<char>>, k: int) -> Seq<char>
    decreases 8 - k,
{
    if k >= 7 {
        row_notation(rows[7], 0)
    } else {
        rows_notation(rows, k + 1) + seq!['/'] + row_notation(rows[k], 0)
    }
}

/// Rows that a notation can show: eight ranks of eight squares, each a
/// symbol or empty, nothing on a lake.
pub open spec fn canonical_rows(rows: Seq<Seq<char>>) -> bool {
    &&& rows.len() == 8
    &&& forall|r: int| 0 <= r < 8 ==> (#[trigger] rows[r]).len() == 8
    &&& forall|sq: int| 0 <= sq < 64 ==> #[trigger] row_char(rows, sq) == ' ' || is_symbol(row_char(rows, sq))
    &&& forall|sq: int| #[trigger] bit(lakes(), sq) ==> row_char(rows, sq) == ' '
}

proof fn lemma_piece_from_only(bb: Seq<u64>, q: int, i: int, k: int)
    requires
        2 <= i <= 10,
        forall|j: int| i <= j < 10 ==> #[trigger] bit(bb[j], q) == (j == k),
    ensures
        piece_from(bb, q, i) == if i <= k < 10 { k } else { usize::MAX as int },
    decreases 10 - i,
{
    if i < 10 {
        lemma_piece_from_only(bb, q, i + 1, k);
    }
}

proof fn lemma_symbol_back(c: char)
    requires
        is_symbol(c),
    ensures
        2 <= symbol_piece(c) < 10,
        symbol(symbol_piece(c), !('a' <= c <= 'z')) == c,
{
}

/// Two rows that differ only in which blank (an empty square or a lake)
/// they show have the same notation.
proof fn lemma_row_notation_blanks(a: Seq<char>, b: Seq<char>, gap: nat)
    requires
        a.len() == b.len(),
        forall|i: int| 0 <= i < a.len() ==> a[i] == b[i] || ((a[i] == ' ' || a[i] == '~') && (b[i] == ' ' || b[i] == '~')),
    ensures
        row_notation(a, gap) == row_notation(b, gap),
    decreases a.len(),
{
    if a.len() > 0 {
        lemma_row_notation_blanks(a.drop_first(), b.drop_first(), if a[0] == ' ' || a[0] == '~' { gap + 1 } else { 0 });
    }
}

/// A canonical notation, read and printed again, comes back unchanged:
/// the text of a position gives back every notation of eight ranks where
/// each run of empty squares is one digit and no piece stands on a lake.
pub proof fn lemma_canonical_notation(rows: Seq<Seq<char>>, blue: bool)
    requires
        canonical_rows(rows),
    ensures
        ({
            let n = rows_notation(rows, 0) + seq![' ', if blue { 'b' } else { 'r' }];
            read_notation(n) matches Some(q) && position_notation(q) == n
        }),
{
    broadcast use group_bits;

    let p = rows_position(rows, blue);
    assert forall|i: int, sq: int| 0 <= i < 10 implies #[trigger] bit(p.bb[i], sq) == (0 <= sq < 64 && row_has(rows, sq, i)) by {
        lemma_bits_where(|sq: int| row_has(rows, sq, i), 64);
    }
    assert forall|sq: int| 0 <= sq < 64 implies #[trigger] cells(p)[sq] == if bit(lakes(), sq) { '~' } else { row_char(rows, sq) } by {
        let c = row_char(rows, sq);
        assert forall|j: int| 2 <= j < 10 implies #[trigger] bit(p.bb[j], sq) == (j == symbol_piece(c)) by {}
        lemma_piece_from_only(p.bb, sq, 2, symbol_piece(c));
        if is_symbol(c) {
            lemma_symbol_back(c);
        }
    }
    assert(board_wf(p)) by {
        assert forall|k: int, q: int| 2 <= k < 10 && #[trigger] bit(p.bb[k], q) implies (bit(p.bb[0], q) || bit(p.bb[1], q))
            && piece_at(p.bb, q) == k by {
            let c = row_char(rows, q);
            assert forall|j: int| 2 <= j < 10 implies #[trigger] bit(p.bb[j], q) == (j == symbol_piece(c)) by {}
            lemma_piece_from_only(p.bb, q, 2, symbol_piece(c));
        }
        assert forall|q: int| (bit(p.bb[0], q) || bit(p.bb[1], q)) implies 2 <= piece_at(p.bb, q) < 10 by {
            let c = row_char(rows, q);
            assert forall|j: int| 2 <= j < 10 implies #[trigger] bit(p.bb[j], q) == (j == symbol_piece(c)) by {}
            lemma_piece_from_only(p.bb, q, 2, symbol_piece(c));
        }
    }
    assert(lakes_free(p));
    let c = cells(p);
    assert forall|k: int| 0 <= k <= 7 implies #[trigger] row_notation(rank_cells(c, k), 0) == row_notation(rows[k], 0) by {
        assert forall|f: int| 0 <= f < 8 implies rank_cells(c, k)[f] == rows[k][f] || ((rank_cells(c, k)[f] == ' '
            || rank_cells(c, k)[f] == '~') && (rows[k][f] == ' ' || rows[k][f] == '~')) by {
            assert(rank_cells(c, k)[f] == c[8 * k + f]);
            assert(row_char(rows, 8 * k + f) == rows[k][f]);
        }
        lemma_row_notation_blanks(rank_cells(c, k), rows[k], 0);
    }
    lemma_notation_of_rows(c, rows, 0);
    lemma_printed_notation_stable(p);
}

proof fn lemma_notation_of_rows(c: Seq<char>, rows: Seq<Seq<char>>, k: int)
    requires
        0 <= k <= 7,
        forall|r: int| 0 <= r <= 7 ==> #[trigger] row_notation(rank_cells(c, r), 0) == row_notation(rows[r], 0),
    ensures
        notation_from(c, k) == rows_notation(rows, k),
    decreases 8 - k,
{
    assert(row_notation(rank_cells(c, k), 0) == row_notation(rows[k], 0));
    if k < 7 {
        lemma_notation_of_rows(c, rows, k + 1);
    }
}

} // verus!
