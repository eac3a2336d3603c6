//! The referee of a tournament game: what it checks before each move, how it
//! plays the move that a player chose, and how it scores the end.
use crate::stratego::position::{can_gen, legal, side, PositionView};
use crate::stratego::rules::{
    after_move, below_limits, board_wf, consistent, lemma_flag_capture, lemma_legal_can_make, lemma_make_keeps_consistent,
};
use crate::perft::{generated, legal_moves, lemma_sorted_unique};
use crate::stratego::moves::{decimal, move_notation, named_piece, rank_name, square_name};
use crate::stratego::position::piece_at;
use crate::stratego::{Flag, GameState, Move, Piece, StrategoState, StrategoView};
use crate::text::{chars_of, string_of};
use crate::tournament::rating::Reward;
use vstd::prelude::*;

verus! {

/// The side to move has a legal move.
pub open spec fn has_move(g: StrategoView) -> bool {
    exists|m: Move| legal(g.board, g.stack, m)
}

/// The game with its state replaced.
pub open spec fn with_state(g: StrategoView, state: GameState) -> StrategoView {
    StrategoView { board: PositionView { state, ..g.board }, ..g }
}

/// `g` is the move `m` as a player writes it: the same squares, a capture
/// exactly when `m` is one, and for a capture the same piece.
pub open spec fn same_move(g: Move, m: Move) -> bool {
    &&& g.from == m.from
    &&& g.to == m.to
    &&& (g.flag & Flag::CAPTURE != 0) == (m.flag & Flag::CAPTURE != 0)
    &&& g.flag & Flag::CAPTURE != 0 ==> g.piece == m.piece
}

/// At most one legal move is written like a given move.
pub proof fn lemma_same_move_unique(g: StrategoView, m: Move, a: Move, b: Move)
    requires
        board_wf(g.board),
        legal(g.board, g.stack, a),
        legal(g.board, g.stack, b),
        same_move(a, m),
        same_move(b, m),
    ensures
        a == b,
{
    let p = g.board;
    let s = side(p.stm);
    assert(crate::stratego::position::piece_at(p.bb, a.from as int) == a.piece);
    assert(crate::stratego::position::piece_at(p.bb, b.from as int) == b.piece);
    lemma_flag_capture(g, a);
    lemma_flag_capture(g, b);
}

/// The check before a player moves: a finished game stays as it is, a
/// player without a legal move loses (the game is won from the view of the
/// side that moved last), and a game with more than `limit` moves played is
/// drawn. Whether the game goes on.
pub fn referee_check(pos: &mut StrategoState, played: usize, limit: usize) -> (res: bool)
    requires
        can_gen(old(pos)@.board),
    ensures
        old(pos)@.board.state != GameState::Ongoing ==> !res && final(pos)@ == old(pos)@,
        old(pos)@.board.state == GameState::Ongoing && !has_move(old(pos)@) ==> !res && final(pos)@ == with_state(
            old(pos)@,
            GameState::Win,
        ),
        old(pos)@.board.state == GameState::Ongoing && has_move(old(pos)@) && played > limit ==> !res && final(pos)@
            == with_state(old(pos)@, GameState::Draw),
        old(pos)@.board.state == GameState::Ongoing && has_move(old(pos)@) && played <= limit ==> res && final(pos)@
            == old(pos)@,
{
    if pos.game_over() {
        return false;
    }
    let moves = pos.gen();
    if moves.len() == 0 {
        proof {
            assert forall|m: Move| !legal(old(pos)@.board, old(pos)@.stack, m) by {
                if legal(old(pos)@.board, old(pos)@.stack, m) {
                    assert(moves@.contains(m));
                }
            }
        }
        // The side to move is stuck: the side that moved last wins
        pos.set_game_state(GameState::Win);
        return false;
    }
    proof {
        assert(moves@.contains(moves@[0]));
    }
    if played > limit {
        pos.set_game_state(GameState::Draw);
        return false;
    }
    true
}

/// What the player with side `stm` sees of the game: everything when it
/// may cheat, otherwise the game with the ranks of the opponent's pieces
/// that it has not seen hidden (see `StrategoState::anonymize`).
pub fn referee_view(pos: &StrategoState, stm: usize, cheating: bool) -> (res: StrategoState)
    requires
        consistent(pos@),
        stm < 2,
    ensures
        cheating ==> res@ == pos@,
        !cheating ==> res@ == (StrategoView {
            board: crate::stratego::anonymized(pos@.board, pos@.info.bb[1 - stm as int], 1 - stm as int, 64),
            ..pos@
        }),
{
    if cheating {
        pos.clone()
    } else {
        pos.anonymize(1 - stm)
    }
}

/// Plays the move that a player chose: the legal move written like it (see
/// `same_move`). `false`, with the game unchanged, when there is none.
pub fn referee_apply(pos: &mut StrategoState, mov: Move) -> (res: bool)
    requires
        consistent(old(pos)@),
        below_limits(old(pos)@.board),
    ensures
        res == exists|g: Move| legal(old(pos)@.board, old(pos)@.stack, g) && same_move(g, mov),
        res ==> exists|g: Move|
            legal(old(pos)@.board, old(pos)@.stack, g) && same_move(g, mov) && final(pos)@ == after_move(old(pos)@, g),
        !res ==> final(pos)@ == old(pos)@,
        consistent(final(pos)@),
{
    proof {
        crate::stratego::rules::lemma_consistent_can_gen(pos@);
    }
    let moves = pos.gen();
    let mut i: usize = 0;
    while i < moves.len()
        invariant
            pos@ == old(pos)@,
            consistent(pos@),
            below_limits(pos@.board),
            forall|m: Move| moves@.contains(m) <==> legal(pos@.board, pos@.stack, m),
            i <= moves@.len(),
            forall|j: int| 0 <= j < i ==> !same_move(#[trigger] moves@[j], mov),
        decreases moves@.len() - i,
    {
        let g = moves.get(i);
        if g.from == mov.from && g.to == mov.to && ((g.flag & Flag::CAPTURE) != 0) == ((mov.flag & Flag::CAPTURE) != 0)
            && ((g.flag & Flag::CAPTURE) == 0 || g.piece == mov.piece) {
            proof {
                assert(moves@.contains(g));
                lemma_legal_can_make(pos@, g);
                lemma_make_keeps_consistent(pos@, g);
            }
            let ghost before = pos@;
            pos.make(g);
            proof {
                assert(same_move(g, mov));
                assert(legal(before.board, before.stack, g));
                assert(pos@ == after_move(before, g));
            }
            return true;
        }
        i += 1;
    }
    proof {
        assert forall|g: Move| !(legal(old(pos)@.board, old(pos)@.stack, g) && same_move(g, mov)) by {
            if legal(old(pos)@.board, old(pos)@.stack, g) && same_move(g, mov) {
                assert(moves@.contains(g));
                let j = choose|j: int| 0 <= j < moves@.len() && moves@[j] == g;
                assert(!same_move(moves@[j], mov));
            }
        }
    }
    false
}

/// The rewards of the two players (red first) at the end of a game, where
/// `stm` is the player to move and the state is from the view of the other
/// player, who moved last: a won game is won by the player who moved last,
/// a lost game by the player to move, a draw is a draw for both.
pub open spec fn rewards_spec(state: GameState, stm: int) -> (Reward, Reward) {
    match state {
        GameState::Win => if stm == 1 {
            (Reward::Win, Reward::Loss)
        } else {
            (Reward::Loss, Reward::Win)
        },
        GameState::Loss => if stm == 1 {
            (Reward::Loss, Reward::Win)
        } else {
            (Reward::Win, Reward::Loss)
        },
        _ => (Reward::Draw, Reward::Draw),
    }
}

/// The rewards of the two players of a finished game (see `rewards_spec`).
pub fn game_rewards(pos: &StrategoState, stm: usize) -> (res: (Reward, Reward))
    requires
        stm < 2,
        pos@.board.state != GameState::Ongoing,
    ensures
        res == rewards_spec(pos@.board.state, stm as int),
{
    match pos.game_state() {
        GameState::Win => if stm == 1 {
            (Reward::Win, Reward::Loss)
        } else {
            (Reward::Loss, Reward::Win)
        },
        GameState::Loss => if stm == 1 {
            (Reward::Loss, Reward::Win)
        } else {
            (Reward::Win, Reward::Loss)
        },
        _ => (Reward::Draw, Reward::Draw),
    }
}

/// What a played move shows of a capture: the rank of the captured piece
/// followed by `x`; nothing for a quiet move.
pub open spec fn capture_text(g: StrategoView, m: Move) -> Seq<char> {
    if m.flag & Flag::CAPTURE != 0 {
        rank_name(piece_at(g.board.bb, m.to as int)) + seq!['x']
    } else {
        seq![]
    }
}

/// Whether two texts are equal.
fn same_text(a: &str, b: &str) -> (res: bool)
    ensures
        res == (a@ == b@),
{
    let x = chars_of(a);
    let y = chars_of(b);
    if x.len() != y.len() {
        return false;
    }
    let mut i: usize = 0;
    while i < x.len()
        invariant
            x@ == a@,
            y@ == b@,
            x@.len() == y@.len(),
            i <= x@.len(),
            forall|j: int| 0 <= j < i ==> x@[j] == y@[j],
        decreases x@.len() - i,
    {
        if x[i] != y[i] {
            return false;
        }
        i += 1;
    }
    proof {
        assert(x@ =~= y@);
    }
    true
}

/// Plays the generated move written as `text` (see `Move::to_string`), the
/// first such in the order of `gen`, and tells what it showed of a capture
/// (see `capture_text`); `None`, with the game unchanged, when no generated
/// move is written so.
pub fn play_text(pos: &mut StrategoState, text: &str) -> (res: Option<String>)
    requires
        consistent(old(pos)@),
        below_limits(old(pos)@.board),
        forall|m: Move|
            legal(old(pos)@.board, old(pos)@.stack, m) && move_notation(m) == text@ && m.flag & Flag::CAPTURE != 0
                ==> named_piece(piece_at(old(pos)@.board.bb, m.to as int)),
    ensures
        consistent(final(pos)@),
        res is Some <==> exists|i: int|
            0 <= i < legal_moves(old(pos)@).len() && move_notation(#[trigger] legal_moves(old(pos)@)[i]) == text@,
        res matches Some(shown) ==> exists|i: int|
            0 <= i < legal_moves(old(pos)@).len() && move_notation(#[trigger] legal_moves(old(pos)@)[i]) == text@
                && (forall|j: int| 0 <= j < i ==> move_notation(legal_moves(old(pos)@)[j]) != text@) && final(pos)@
                == after_move(old(pos)@, legal_moves(old(pos)@)[i]) && shown@ == capture_text(
                old(pos)@,
                legal_moves(old(pos)@)[i],
            ),
        res is None ==> final(pos)@ == old(pos)@,
{
    proof {
        crate::stratego::rules::lemma_consistent_can_gen(pos@);
    }
    let moves = pos.gen();
    proof {
        assert(generated(pos@, moves@));
        lemma_sorted_unique(moves@, legal_moves(pos@));
    }
    let mut i: usize = 0;
    while i < moves.len()
        invariant
            pos@ == old(pos)@,
            consistent(pos@),
            below_limits(pos@.board),
            moves@ == legal_moves(pos@),
            forall|m: Move| moves@.contains(m) <==> legal(pos@.board, pos@.stack, m),
            forall|m: Move|
                legal(pos@.board, pos@.stack, m) && move_notation(m) == text@ && m.flag & Flag::CAPTURE != 0
                    ==> named_piece(piece_at(pos@.board.bb, m.to as int)),
            i <= moves@.len(),
            forall|j: int| 0 <= j < i ==> move_notation(#[trigger] moves@[j]) != text@,
        decreases moves@.len() - i,
    {
        let g = moves.get(i);
        proof {
            assert(moves@.contains(g));
        }
        let written = g.to_string();
        if same_text(written.as_str(), text) {
            let mut shown: Vec<char> = Vec::new();
            if (g.flag & Flag::CAPTURE) != 0 {
                proof {
                    crate::stratego::rules::lemma_flag_capture(pos@, g);
                }
                let captured = pos.board().piece(g.to);
                let rank = Piece::rank(captured);
                shown = chars_of(rank.as_str());
                shown.push('x');
            }
            proof {
                lemma_legal_can_make(pos@, g);
                lemma_make_keeps_consistent(pos@, g);
                assert(shown@ =~= capture_text(pos@, g));
            }
            let ghost before = pos@;
            pos.make(g);
            proof {
                assert(pos@ == after_move(before, g));
                assert(move_notation(legal_moves(before)[i as int]) == text@);
            }
            return Some(string_of(&shown));
        }
        i += 1;
    }
    None
}

proof fn lemma_square_name(sq: u8)
    requires
        sq < 64,
    ensures
        square_name(sq) == seq![((sq % 8) + 'a' as nat) as char, ((sq / 8 + 1) + '0' as nat) as char],
{
    let n = (sq / 8) as nat + 1;
    assert(n < 10);
    assert(decimal(n) == seq![(n + '0' as nat) as char]);
    assert(square_name(sq) =~= seq![((sq % 8) + 'a' as nat) as char, ((sq / 8 + 1) + '0' as nat) as char]);
}

/// The notation of a move identifies it among the legal moves of a game:
/// two legal moves written alike are the same move.
pub proof fn lemma_notation_identifies_move(g: StrategoView, a: Move, b: Move)
    requires
        board_wf(g.board),
        legal(g.board, g.stack, a),
        legal(g.board, g.stack, b),
        move_notation(a) == move_notation(b),
    ensures
        a == b,
{
    crate::stratego::rules::lemma_flag_capture(g, a);
    crate::stratego::rules::lemma_flag_capture(g, b);
    lemma_square_name(a.from);
    lemma_square_name(a.to);
    lemma_square_name(b.from);
    lemma_square_name(b.to);
    let na = move_notation(a);
    let nb = move_notation(b);
    assert(na[0] == nb[0] && na[1] == nb[1] && na[2] == nb[2] && na[3] == nb[3]);
    assert(((a.from % 8) + 'a' as nat) as char == ((b.from % 8) + 'a' as nat) as char);
    assert(a.from % 8 == b.from % 8);
    assert(a.from / 8 == b.from / 8);
    assert(a.from == b.from);
    assert(a.to % 8 == b.to % 8);
    assert(a.to / 8 == b.to / 8);
    assert(a.to == b.to);
    assert((a.flag & Flag::CAPTURE != 0) == (na.len() > 4));
    assert((b.flag & Flag::CAPTURE != 0) == (nb.len() > 4));
    let p = g.board;
    assert(piece_at(p.bb, a.from as int) == a.piece);
    assert(piece_at(p.bb, b.from as int) == b.piece);
}

} // verus!
