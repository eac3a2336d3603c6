//! Counting the move sequences of a given length from a game state, the
//! usual test of move generation.
use crate::stratego::position::{gen_key, gen_sorted, legal, made, side, PositionView};
use crate::stratego::rules::{
    after_move, below_limits, consistent, lemma_consistent_can_gen, lemma_legal_can_make,
    lemma_make_keeps_consistent,
};
use crate::stratego::{Move, StrategoState, StrategoView};
use vstd::prelude::*;

verus! {

/// `moves` holds exactly the legal moves of the game, in the order of
/// `gen`.
pub open spec fn generated(g: StrategoView, moves: Seq<Move>) -> bool {
    &&& forall|m: Move| moves.contains(m) <==> legal(g.board, g.stack, m)
    &&& gen_sorted(moves)
}

/// The legal moves of the game in the order of `gen`.
pub open spec fn legal_moves(g: StrategoView) -> Seq<Move> {
    choose|moves: Seq<Move>| generated(g, moves)
}

/// Two sequences ordered strictly by `gen_key` that hold the same moves are
/// equal: the moves of a game have one order.
pub proof fn lemma_sorted_unique(a: Seq<Move>, b: Seq<Move>)
    requires
        gen_sorted(a),
        gen_sorted(b),
        forall|m: Move| a.contains(m) <==> b.contains(m),
    ensures
        a == b,
    decreases a.len() + b.len(),
{
    if a.len() == 0 {
        if b.len() > 0 {
            assert(b.contains(b[0]));
        }
        assert(a =~= b);
    } else {
        assert(a.contains(a[0]));
        let j = choose|j: int| 0 <= j < b.len() && b[j] == a[0];
        assert(b.contains(b[0]));
        let i = choose|i: int| 0 <= i < a.len() && a[i] == b[0];
        assert(gen_key(b[0]) <= gen_key(b[j])) by {
            if j > 0 {
                assert(gen_key(b[0]) < gen_key(b[j]));
            }
        }
        assert(gen_key(a[0]) <= gen_key(a[i])) by {
            if i > 0 {
                assert(gen_key(a[0]) < gen_key(a[i]));
            }
        }
        assert(i == 0) by {
            if i > 0 {
                assert(gen_key(a[0]) < gen_key(a[i]));
            }
        }
        assert(a[0] == b[0]);
        let ta = a.drop_first();
        let tb = b.drop_first();
        assert forall|m: Move| ta.contains(m) <==> tb.contains(m) by {
            if ta.contains(m) {
                let k = choose|k: int| 0 <= k < ta.len() && ta[k] == m;
                assert(a[k + 1] == m);
                assert(gen_key(a[0]) < gen_key(a[k + 1]));
                assert(b.contains(m));
                let l = choose|l: int| 0 <= l < b.len() && b[l] == m;
                assert(l != 0);
                assert(tb[l - 1] == m);
            }
            if tb.contains(m) {
                let k = choose|k: int| 0 <= k < tb.len() && tb[k] == m;
                assert(b[k + 1] == m);
                assert(gen_key(b[0]) < gen_key(b[k + 1]));
                assert(a.contains(m));
                let l = choose|l: int| 0 <= l < a.len() && a[l] == m;
                assert(l != 0);
                assert(ta[l - 1] == m);
            }
        }
        lemma_sorted_unique(ta, tb);
        assert(a =~= seq![a[0]] + ta);
        assert(b =~= seq![b[0]] + tb);
    }
}

/// The number of move sequences of `depth` moves from the game.
pub open spec fn perft_spec(g: StrategoView, depth: nat) -> nat
    decreases depth, 1nat, 0nat,
{
    if depth == 0 {
        1
    } else {
        children_sum(g, legal_moves(g), (depth - 1) as nat)
    }
}

/// The sum of the counts of `depth` moves after each of `moves`.
pub open spec fn children_sum(g: StrategoView, moves: Seq<Move>, depth: nat) -> nat
    decreases depth + 1, 0nat, moves.len(),
{
    if moves.len() == 0 {
        0
    } else {
        children_sum(g, moves.drop_last(), depth) + perft_spec(after_move(g, moves.last()), depth)
    }
}

proof fn lemma_children_prefix(g: StrategoView, moves: Seq<Move>, depth: nat, i: int)
    requires
        0 <= i <= moves.len(),
    ensures
        children_sum(g, moves.take(i), depth) <= children_sum(g, moves, depth),
    decreases moves.len(),
{
    if i < moves.len() {
        assert(moves.drop_last().take(i) =~= moves.take(i));
        lemma_children_prefix(g, moves.drop_last(), depth, i);
    } else {
        assert(moves.take(i) =~= moves);
    }
}

/// Room for `depth` more moves before a counter reaches its limit.
pub open spec fn room(p: PositionView, depth: int) -> bool {
    &&& p.half + depth <= u16::MAX
    &&& p.last[0].moves + depth <= u8::MAX
    &&& p.last[1].moves + depth <= u8::MAX
}

proof fn lemma_room(g: StrategoView, m: Move, depth: int)
    requires
        consistent(g),
        legal(g.board, g.stack, m),
        depth >= 1,
        room(g.board, depth),
    ensures
        below_limits(g.board),
        room(made(g.board, m), depth - 1),
{
    let p = g.board;
    let stm = side(p.stm);
    assert(0 <= stm < 2);
    assert(made(p, m).last == p.last.update(stm, crate::stratego::position::next_last(p.last[stm], m)));
}

/// The number of move sequences of `depth` moves from the state, found by
/// making every generated move and counting on.
pub fn perft(state: StrategoState, depth: usize) -> (res: usize)
    requires
        consistent(state@),
        room(state@.board, depth as int),
        perft_spec(state@, depth as nat) <= usize::MAX,
    ensures
        res == perft_spec(state@, depth as nat),
    decreases depth,
{
    if depth == 0 {
        return 1;
    }
    proof {
        lemma_consistent_can_gen(state@);
    }
    let moves = state.gen();
    proof {
        assert(generated(state@, moves@));
        lemma_sorted_unique(moves@, legal_moves(state@));
        lemma_children_prefix(state@, moves@, (depth - 1) as nat, 0);
        assert(moves@.take(0) =~= Seq::<Move>::empty());
    }
    let mut nodes: usize = 0;
    let mut i: usize = 0;
    while i < moves.len()
        invariant
            consistent(state@),
            room(state@.board, depth as int),
            depth >= 1,
            moves@ == legal_moves(state@),
            forall|m: Move| moves@.contains(m) <==> legal(state@.board, state@.stack, m),
            children_sum(state@, moves@, (depth - 1) as nat) == perft_spec(state@, depth as nat),
            perft_spec(state@, depth as nat) <= usize::MAX,
            i <= moves@.len(),
            nodes == children_sum(state@, moves@.take(i as int), (depth - 1) as nat),
        decreases moves@.len() - i,
    {
        let m = moves.get(i);
        proof {
            assert(moves@.contains(m));
            lemma_room(state@, m, depth as int);
            lemma_legal_can_make(state@, m);
            lemma_make_keeps_consistent(state@, m);
            lemma_children_prefix(state@, moves@, (depth - 1) as nat, i + 1);
            assert(moves@.take(i + 1).drop_last() =~= moves@.take(i as int));
            assert(moves@.take(i + 1).last() == m);
        }
        let mut child = state.clone();
        child.make(m);
        proof {
            assert(child@ == after_move(state@, m));
        }
        let n = perft(child, depth - 1);
        nodes = nodes + n;
        i += 1;
    }
    proof {
        assert(moves@.take(i as int) =~= moves@);
    }
    nodes
}

} // verus!
