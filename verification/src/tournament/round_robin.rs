//! Why the schedule is a round robin: the seating after `s` moves in closed
//! form, when two players face each other, and how many games each ordered
//! pair of players gets from a new schedule.
use vstd::prelude::*;
use crate::tournament::schedule::{
    games_fit, games_spec, lemma_rotate, next_step, real_slot, rotated_bottom, rotated_top, seat_before,
    seating, first_view, ScheduleView, TournamentPair,
};

verus! {

/// The number of `k` in `0..n` with `f(k)`.
pub open spec fn count_below(f: spec_fn(int) -> bool, n: int) -> nat
    decreases n,
{
    if n <= 0 {
        0
    } else {
        count_below(f, n - 1) + if f(n - 1) { 1nat } else { 0nat }
    }
}

proof fn lemma_count_none(f: spec_fn(int) -> bool, lo: int, hi: int)
    requires
        0 <= lo <= hi,
        forall|k: int| lo <= k < hi ==> !#[trigger] f(k),
    ensures
        count_below(f, hi) == count_below(f, lo),
    decreases hi - lo,
{
    if hi > lo {
        lemma_count_none(f, lo, hi - 1);
    }
}

proof fn lemma_count_one(f: spec_fn(int) -> bool, lo: int, k0: int, hi: int)
    requires
        0 <= lo <= k0 < hi,
        f(k0),
        forall|k: int| lo <= k < hi && k != k0 ==> !#[trigger] f(k),
    ensures
        count_below(f, hi) == count_below(f, lo) + 1,
{
    lemma_count_none(f, lo, k0);
    lemma_count_none(f, k0 + 1, hi);
}

proof fn lemma_count_mono(f: spec_fn(int) -> bool, lo: int, hi: int)
    requires
        0 <= lo <= hi,
    ensures
        count_below(f, lo) <= count_below(f, hi) <= count_below(f, lo) + (hi - lo),
    decreases hi - lo,
{
    if hi > lo {
        lemma_count_mono(f, lo, hi - 1);
    }
}

/// A count that does not grow over `lo..hi` has no witness there.
proof fn lemma_count_flat(f: spec_fn(int) -> bool, lo: int, k: int, hi: int)
    requires
        0 <= lo <= k < hi,
        count_below(f, lo) == count_below(f, hi),
    ensures
        !f(k),
{
    lemma_count_mono(f, lo, k);
    lemma_count_mono(f, k + 1, hi);
}

proof fn lemma_count_complement(f: spec_fn(int) -> bool, g: spec_fn(int) -> bool, n: int)
    requires
        0 <= n,
        forall|k: int| 0 <= k < n ==> #[trigger] g(k) == !f(k),
    ensures
        count_below(f, n) + count_below(g, n) == n,
    decreases n,
{
    if n > 0 {
        lemma_count_complement(f, g, n - 1);
    }
}

/// Seats per row: the number of players rounded up to even, halved.
pub open spec fn half(players: int) -> int {
    (players + players % 2) / 2
}

/// The seats other than the first top seat form a ring that turns by one
/// place with each move.
pub open spec fn ring_len(players: int) -> int {
    2 * half(players) - 1
}

/// The place on the ring of seat `i` (the top row, then the bottom row),
/// for `i >= 1`: the top row from its second seat, then the bottom row
/// backwards.
pub open spec fn ring_pos(h: int, i: int) -> int {
    if i < h {
        i - 1
    } else {
        3 * h - 2 - i
    }
}

/// The seat at place `x` of the ring.
pub open spec fn ring_seat(h: int, x: int) -> int {
    if x < h - 1 {
        x + 1
    } else {
        3 * h - 2 - x
    }
}

/// The first top row: players `0..half`.
pub open spec fn first_top(players: int) -> Seq<usize> {
    Seq::new(half(players) as nat, |i: int| i as usize)
}

/// The first bottom row: players `half..2 * half`.
pub open spec fn first_bottom(players: int) -> Seq<usize> {
    Seq::new(half(players) as nat, |i: int| (i + half(players)) as usize)
}

/// The seating after `s` moves from the first one.
pub open spec fn seats(players: int, s: nat) -> (Seq<usize>, Seq<usize>)
    decreases s,
{
    if s == 0 {
        (first_top(players), first_bottom(players))
    } else {
        let prev = seats(players, (s - 1) as nat);
        (rotated_top(prev.0, prev.1), rotated_bottom(prev.0, prev.1))
    }
}

/// Where player `v >= 1` sits after `s` moves: the place on the ring that
/// its first seat had, turned `s` places on.
pub open spec fn place(players: int, v: int, s: int) -> int {
    (ring_pos(half(players), v) + s) % ring_len(players)
}

proof fn lemma_mod_next(x: int, m: int)
    requires
        m > 0,
    ensures
        (x + 1) % m == if x % m + 1 < m { x % m + 1 } else { 0 },
{
    let q = x / m;
    let y = x % m;
    vstd::arithmetic::div_mod::lemma_fundamental_div_mod(x, m);
    vstd::arithmetic::div_mod::lemma_mod_bound(x, m);
    assert(x == q * m + y) by (nonlinear_arith)
        requires
            x == m * q + y,
    ;
    if y + 1 < m {
        vstd::arithmetic::div_mod::lemma_fundamental_div_mod_converse(x + 1, m, q, y + 1);
    } else {
        assert(x + 1 == (q + 1) * m + 0) by (nonlinear_arith)
            requires
                x == q * m + y,
                y + 1 == m,
        ;
        vstd::arithmetic::div_mod::lemma_fundamental_div_mod_converse(x + 1, m, q + 1, 0);
    }
}

proof fn lemma_seat_before_ring(h: int, i: int)
    requires
        h >= 1,
        1 <= i < 2 * h,
    ensures
        1 <= seat_before(h, i) < 2 * h,
        ring_pos(h, i) == if ring_pos(h, seat_before(h, i)) + 1 < 2 * h - 1 {
            ring_pos(h, seat_before(h, i)) + 1
        } else {
            0
        },
        0 <= ring_pos(h, i) < 2 * h - 1,
{
}

/// Every seating keeps player 0 in the first top seat, and player `v` sits
/// at ring place `place(players, v, s)`.
pub proof fn lemma_seats(players: int, s: nat)
    requires
        2 <= players < usize::MAX,
    ensures
        ({
            let (t, b) = seats(players, s);
            let all = t + b;
            let h = half(players);
            &&& seating(players, t, b)
            &&& all[0] == 0
            &&& forall|i: int| 1 <= i < 2 * h ==> #[trigger] all[i] != 0
                && place(players, all[i] as int, s as int) == ring_pos(h, i)
        }),
    decreases s,
{
    let h = half(players);
    let m = ring_len(players);
    if s == 0 {
        let (t, b) = seats(players, s);
        let all = t + b;
        assert forall|a: int| 0 <= a < all.len() implies #[trigger] all[a] == a by {
            if a >= h {
                assert(all[a] == b[a - h]);
            } else {
                assert(all[a] == t[a]);
            }
        }
        assert forall|i: int| 1 <= i < 2 * h implies #[trigger] all[i] != 0
            && place(players, all[i] as int, s as int) == ring_pos(h, i) by {
            assert(all[i] == i);
            vstd::arithmetic::div_mod::lemma_small_mod(ring_pos(h, i) as nat, m as nat);
        }
    } else {
        let prev = seats(players, (s - 1) as nat);
        lemma_seats(players, (s - 1) as nat);
        lemma_rotate(players, prev.0, prev.1);
        let (t, b) = seats(players, s);
        let all = t + b;
        let pall = prev.0 + prev.1;
        assert(pall[0] == 0);
        assert(all[0] == pall[seat_before(prev.0.len() as int, 0)]);
        assert forall|i: int| 1 <= i < 2 * h implies #[trigger] all[i] != 0
            && place(players, all[i] as int, s as int) == ring_pos(h, i) by {
            lemma_seat_before_ring(h, i);
            let j = seat_before(h, i);
            assert(all[i] == pall[j]);
            assert(pall[j] != 0);
            lemma_mod_next(ring_pos(h, pall[j] as int) + s - 1, m);
        }
    }
}

proof fn lemma_mod_shift(x: int, s: int, m: int)
    requires
        m > 0,
        0 <= x < m,
        s >= 0,
    ensures
        0 <= s % m < m,
        (x + s) % m == if x + s % m < m { x + s % m } else { x + s % m - m },
{
    let q = s / m;
    let r = s % m;
    vstd::arithmetic::div_mod::lemma_fundamental_div_mod(s, m);
    vstd::arithmetic::div_mod::lemma_mod_bound(s, m);
    assert(x + s == q * m + (x + r)) by (nonlinear_arith)
        requires
            s == m * q + r,
    ;
    if x + r < m {
        vstd::arithmetic::div_mod::lemma_fundamental_div_mod_converse(x + s, m, q, x + r);
    } else {
        assert(x + s == (q + 1) * m + (x + r - m)) by (nonlinear_arith)
            requires
                x + s == q * m + (x + r),
        ;
        vstd::arithmetic::div_mod::lemma_fundamental_div_mod_converse(x + s, m, q + 1, x + r - m);
    }
}

/// Two players never share a place on the ring.
proof fn lemma_place_injective(players: int, v: int, w: int, s: int)
    requires
        2 <= players,
        1 <= v < 2 * half(players),
        1 <= w < 2 * half(players),
        s >= 0,
        place(players, v, s) == place(players, w, s),
    ensures
        v == w,
{
    let h = half(players);
    let m = ring_len(players);
    lemma_mod_shift(ring_pos(h, v), s, m);
    lemma_mod_shift(ring_pos(h, w), s, m);
}

/// The seat of player `v` after `s` moves.
proof fn lemma_index_of(players: int, s: nat, v: int) -> (i: int)
    requires
        2 <= players < usize::MAX,
        0 <= v < 2 * half(players),
    ensures
        0 <= i < 2 * half(players),
        (seats(players, s).0 + seats(players, s).1)[i] == v,
        i == 0 <==> v == 0,
        v != 0 ==> ring_pos(half(players), i) == place(players, v, s as int),
{
    let h = half(players);
    let m = ring_len(players);
    let all = seats(players, s).0 + seats(players, s).1;
    lemma_seats(players, s);
    if v == 0 {
        0
    } else {
        let x = place(players, v, s as int);
        lemma_mod_shift(ring_pos(h, v), s as int, m);
        let i = ring_seat(h, x);
        assert(all[i] != 0 && place(players, all[i] as int, s as int) == ring_pos(h, i));
        assert(all[i] < 2 * h);
        lemma_place_injective(players, all[i] as int, v, s as int);
        i
    }
}

/// Players `a` and `c` face each other in seat `k`.
pub open spec fn faces(t: Seq<usize>, b: Seq<usize>, k: int, a: int, c: int) -> bool {
    (t[k] == a && b[k] == c) || (t[k] == c && b[k] == a)
}

/// Players `a` and `c` face each other in one of the first `p` seats.
pub open spec fn met_below(t: Seq<usize>, b: Seq<usize>, p: int, a: int, c: int) -> bool {
    exists|k: int| 0 <= k < p && #[trigger] faces(t, b, k, a, c)
}

/// When `a` and `c` face each other after `s` moves: player 0 faces the
/// last place of the ring, and two places face each other when they add up
/// to the last place but one.
pub open spec fn meet_cond(players: int, s: int, a: int, c: int) -> bool {
    let m = ring_len(players);
    if a == 0 {
        place(players, c, s) == m - 1
    } else if c == 0 {
        place(players, a, s) == m - 1
    } else {
        place(players, a, s) + place(players, c, s) == m - 2
    }
}

/// Two players face each other in at most one seat.
proof fn lemma_faces_unique(players: int, s: nat, a: int, c: int, k1: int, k2: int)
    requires
        2 <= players < usize::MAX,
        a != c,
        0 <= k1 < half(players),
        0 <= k2 < half(players),
        faces(seats(players, s).0, seats(players, s).1, k1, a, c),
        faces(seats(players, s).0, seats(players, s).1, k2, a, c),
    ensures
        k1 == k2,
{
    let (t, b) = seats(players, s);
    let h = half(players);
    let all = t + b;
    lemma_seats(players, s);
    assert(all[k1] == t[k1] && all[h + k1] == b[k1]);
    assert(all[k2] == t[k2] && all[h + k2] == b[k2]);
    if k1 != k2 {
        assert(all[k1] != all[k2]);
        assert(all[h + k1] != all[h + k2]);
        assert(all[k1] != all[h + k2]);
        assert(all[h + k1] != all[k2]);
    }
}

/// Facing each other, in the seating after `s` moves, is `meet_cond`.
proof fn lemma_meet_iff(players: int, s: nat, a: int, c: int)
    requires
        2 <= players < usize::MAX,
        0 <= a < 2 * half(players),
        0 <= c < 2 * half(players),
        a != c,
    ensures
        met_below(seats(players, s).0, seats(players, s).1, half(players), a, c)
            <==> meet_cond(players, s as int, a, c),
{
    let (t, b) = seats(players, s);
    let h = half(players);
    let m = ring_len(players);
    let all = t + b;
    lemma_seats(players, s);
    if met_below(t, b, h, a, c) {
        let k = choose|k: int| 0 <= k < h && #[trigger] faces(t, b, k, a, c);
        assert(all[k] == t[k] && all[h + k] == b[k]);
        if k == 0 {
            assert(ring_pos(h, h) == m - 1);
        } else {
            assert(ring_pos(h, k) + ring_pos(h, h + k) == m - 2);
        }
    }
    if meet_cond(players, s as int, a, c) {
        let ia = lemma_index_of(players, s, a);
        let ic = lemma_index_of(players, s, c);
        if a != 0 {
            lemma_mod_shift(ring_pos(h, a), s as int, m);
        }
        if c != 0 {
            lemma_mod_shift(ring_pos(h, c), s as int, m);
        }
        if a == 0 {
            assert(ic == h);
            assert(faces(t, b, 0, a, c));
        } else if c == 0 {
            assert(ia == h);
            assert(faces(t, b, 0, a, c));
        } else {
            if place(players, a, s as int) < place(players, c, s as int) {
                let k = ia;
                assert(1 <= k < h);
                assert(ic == h + k);
                assert(all[k] == t[k] && all[h + k] == b[k]);
                assert(faces(t, b, k, a, c));
            } else {
                assert(place(players, a, s as int) != place(players, c, s as int)) by {
                    if place(players, a, s as int) == place(players, c, s as int) {
                        lemma_place_injective(players, a, c, s as int);
                    }
                }
                let k = ic;
                assert(1 <= k < h);
                assert(ia == h + k);
                assert(all[k] == t[k] && all[h + k] == b[k]);
                assert(faces(t, b, k, a, c));
            }
        }
    }
}

/// Over each `ring_len` moves in a row, two players face each other after
/// exactly one of them: the ring has an odd length.
proof fn lemma_meet_period(players: int, a: int, c: int) -> (t0: int)
    requires
        2 <= players,
        0 <= a < 2 * half(players),
        0 <= c < 2 * half(players),
        a != c,
    ensures
        0 <= t0 < ring_len(players),
        forall|j: int, u: int| 0 <= j && 0 <= u < ring_len(players) ==>
            (#[trigger] meet_cond(players, ring_len(players) * j + u, a, c) <==> u == t0),
{
    let h = half(players);
    let m = ring_len(players);
    let xa = ring_pos(h, a);
    let xc = ring_pos(h, c);
    let d = m - 2 - xa - xc;
    let t0 = if a == 0 {
        m - 1 - xc
    } else if c == 0 {
        m - 1 - xa
    } else if d >= 0 {
        if d % 2 == 0 { d / 2 } else { (d + m) / 2 }
    } else {
        if (d + m) % 2 == 0 { (d + m) / 2 } else { (d + 2 * m) / 2 }
    };
    assert forall|j: int, u: int| 0 <= j && 0 <= u < m implies
        (#[trigger] meet_cond(players, m * j + u, a, c) <==> u == t0) by {
        vstd::arithmetic::div_mod::lemma_small_mod(u as nat, m as nat);
        if a != 0 {
            vstd::arithmetic::div_mod::lemma_mod_multiples_vanish(j, xa + u, m);
            assert(xa + (m * j + u) == m * j + (xa + u));
            lemma_mod_shift(xa, u, m);
        }
        if c != 0 {
            vstd::arithmetic::div_mod::lemma_mod_multiples_vanish(j, xc + u, m);
            assert(xc + (m * j + u) == m * j + (xc + u));
            lemma_mod_shift(xc, u, m);
        }
    }
    t0
}

/// The number of the first `n` seatings in which `a` and `c` face each other.
pub open spec fn meetings(players: int, n: int, a: int, c: int) -> nat {
    count_below(meets_after(players, a, c), n)
}

/// Whether `a` and `c` face each other after `s` moves.
pub open spec fn meets_after(players: int, a: int, c: int) -> spec_fn(int) -> bool {
    |s: int| met_below(seats(players, s as nat).0, seats(players, s as nat).1, half(players), a, c)
}

/// In `n` turns of the ring two players face each other `n` times.
proof fn lemma_meetings_turns(players: int, a: int, c: int, n: int)
    requires
        2 <= players < usize::MAX,
        0 <= a < 2 * half(players),
        0 <= c < 2 * half(players),
        a != c,
        n >= 0,
    ensures
        meetings(players, ring_len(players) * n, a, c) == n,
    decreases n,
{
    let m = ring_len(players);
    let f = meets_after(players, a, c);
    if n > 0 {
        lemma_meetings_turns(players, a, c, n - 1);
        let t0 = lemma_meet_period(players, a, c);
        let lo = m * (n - 1);
        assert(m * n == lo + m) by (nonlinear_arith)
            requires
                lo == m * (n - 1),
        ;
        assert(lo >= 0) by (nonlinear_arith)
            requires
                m >= 1,
                n >= 1,
                lo == m * (n - 1),
        ;
        assert forall|s: int| lo <= s < lo + m implies #[trigger] f(s) == (s == lo + t0) by {
            lemma_meet_iff(players, s as nat, a, c);
            assert(meet_cond(players, m * (n - 1) + (s - lo), a, c) <==> s - lo == t0);
        }
        lemma_count_one(f, lo, lo + t0, lo + m);
    } else {
        assert(m * n == 0) by (nonlinear_arith)
            requires
                n == 0,
        ;
    }
}

/// The number of the first `p` seats, after `s` moves, where two real
/// players face each other.
pub open spec fn real_below(players: int, s: nat, p: int) -> nat {
    count_below(real_seat(players, s), p)
}

/// Whether two real players face each other in seat `k` after `s` moves.
pub open spec fn real_seat(players: int, s: nat) -> spec_fn(int) -> bool {
    |k: int| real_slot(seats(players, s).0, seats(players, s).1, k, players)
}

/// Every seating has a game in each seat, but for the seat of the bye when
/// the number of players is odd.
proof fn lemma_real_count(players: int, s: nat)
    requires
        2 <= players < usize::MAX,
    ensures
        real_below(players, s, half(players)) == half(players) - players % 2,
{
    let (t, b) = seats(players, s);
    let h = half(players);
    let all = t + b;
    let f = real_seat(players, s);
    let g = |k: int| !real_slot(t, b, k, players);
    lemma_seats(players, s);
    lemma_count_complement(f, g, h);
    if players % 2 == 0 {
        assert forall|k: int| 0 <= k < h implies !#[trigger] g(k) by {
            assert(all[k] == t[k] && all[h + k] == b[k]);
        }
        lemma_count_none(g, 0, h);
    } else {
        let i = lemma_index_of(players, s, players);
        let k0 = if i < h { i } else { i - h };
        assert(all[k0] == t[k0] && all[h + k0] == b[k0]);
        assert forall|k: int| 0 <= k < h && k != k0 implies !#[trigger] g(k) by {
            assert(all[k] == t[k] && all[h + k] == b[k]);
            assert(k != i && h + k != i);
            assert(all[k] != all[i] && all[h + k] != all[i]);
        }
        lemma_count_one(g, 0, k0, h);
    }
}

/// A game between two different players of `0..players`.
pub open spec fn between_players(g: Option<TournamentPair>, players: usize) -> bool {
    g matches Some(TournamentPair(a, c)) && a < players && c < players && a != c
}

/// The game with the sides switched.
pub open spec fn swapped(g: Option<TournamentPair>) -> Option<TournamentPair> {
    match g {
        Some(TournamentPair(a, b)) => Some(TournamentPair(b, a)),
        None => None,
    }
}

/// The number of games in `games` with `a` as red and `b` as blue.
pub open spec fn pair_count(games: Seq<Option<TournamentPair>>, a: usize, b: usize) -> nat
    decreases games.len(),
{
    if games.len() == 0 {
        0
    } else {
        pair_count(games.drop_last(), a, b) + if games.last() == Some(TournamentPair(a, b)) {
            1nat
        } else {
            0nat
        }
    }
}

/// What holds of a schedule `st` after it has handed out `out`, with `s`
/// moves made: the games come seat by seat, twice each, and every pair of
/// players has had the games of the seats already passed.
pub open spec fn run_inv(
    players: usize,
    rounds: usize,
    st: ScheduleView,
    out: Seq<Option<TournamentPair>>,
    s: nat,
) -> bool {
    let p = players as int;
    let h = half(p);
    let r = h - p % 2;
    let rb = real_below(p, s, st.pair as int);
    &&& st.players == players
    &&& st.rounds == rounds
    &&& st.game == out.len()
    &&& forall|j: int| 0 <= j < out.len() ==> between_players(#[trigger] out[j], players)
    &&& forall|k: int| 0 <= 2 * k + 1 < out.len() ==> #[trigger] out[2 * k + 1] == swapped(out[2 * k])
    &&& st.game % 2 == 1 ==> out.last() == st.current
    &&& st.top == seats(p, s).0
    &&& st.bottom == seats(p, s).1
    &&& st.pair <= h
    &&& st.game % 2 == 0 ==> st.game == 2 * (s * r + rb)
    &&& st.game % 2 == 1 ==> {
        &&& st.game == 2 * (s * r + rb) - 1
        &&& st.pair >= 1
        &&& st.current == Some(TournamentPair(st.top[st.pair - 1], st.bottom[st.pair - 1]))
    }
    &&& forall|a: usize, c: usize| a < players && c < players && a != c ==>
        #[trigger] pair_count(out, a, c) + (if st.game % 2 == 1 && st.current == Some(TournamentPair(c, a)) {
            1int
        } else {
            0int
        }) == meetings(p, s as int, a as int, c as int) + (if met_below(
            st.top,
            st.bottom,
            st.pair as int,
            a as int,
            c as int,
        ) {
            1int
        } else {
            0int
        })
}

proof fn lemma_pair_count_push(games: Seq<Option<TournamentPair>>, g: Option<TournamentPair>, a: usize, b: usize)
    ensures
        pair_count(games.push(g), a, b) == pair_count(games, a, b) + if g == Some(TournamentPair(a, b)) {
            1nat
        } else {
            0nat
        },
{
    assert(games.push(g).drop_last() =~= games);
}

/// In the seats `lo..hi` without a game, nobody faces anybody.
proof fn lemma_no_meeting(players: int, s: nat, lo: int, hi: int, a: int, c: int)
    requires
        2 <= players,
        0 <= a < players,
        0 <= c < players,
        forall|k: int| lo <= k < hi ==> !#[trigger] real_slot(seats(players, s).0, seats(players, s).1, k, players),
    ensures
        forall|k: int| lo <= k < hi ==> !#[trigger] faces(seats(players, s).0, seats(players, s).1, k, a, c),
{
    let (t, b) = seats(players, s);
    assert forall|k: int| lo <= k < hi implies !#[trigger] faces(t, b, k, a, c) by {
        assert(!real_slot(t, b, k, players));
    }
}

/// One call of `next` keeps `run_inv`.
proof fn lemma_run_step(
    players: usize,
    rounds: usize,
    st: ScheduleView,
    out: Seq<Option<TournamentPair>>,
    s: nat,
    res: Option<TournamentPair>,
    f: ScheduleView,
) -> (s2: nat)
    requires
        2 <= players < usize::MAX,
        games_fit(players as int, rounds as int),
        run_inv(players, rounds, st, out, s),
        next_step(st, res, f),
        st.game < games_spec(players as int, rounds as int),
    ensures
        run_inv(players, rounds, f, out.push(res), s2),
        res is Some,
{
    let p = players as int;
    let h = half(p);
    let r = h - p % 2;
    let out2 = out.push(res);
    lemma_seats(p, s);
    lemma_real_count(p, s);
    assert forall|k: int| 0 <= 2 * k + 1 < out2.len() implies #[trigger] out2[2 * k + 1] == swapped(out2[2 * k]) by {
        assert(out2[2 * k] == out[2 * k]);
        if 2 * k + 1 < out.len() {
            assert(out2[2 * k + 1] == out[2 * k + 1]);
        } else {
            assert(out[2 * k] == out.last());
        }
    }
    assert(st.game < games_spec(players as int, rounds as int));
    if st.game % 2 == 1 {
        assert forall|a: usize, c: usize| a < players && c < players && a != c implies
            #[trigger] pair_count(out2, a, c) + (if f.game % 2 == 1 && f.current == Some(TournamentPair(c, a)) {
                1int
            } else {
                0int
            }) == meetings(p, s as int, a as int, c as int) + (if met_below(
                f.top,
                f.bottom,
                f.pair as int,
                a as int,
                c as int,
            ) {
                1int
            } else {
                0int
            }) by {
            lemma_pair_count_push(out, res, a, c);
            assert(pair_count(out, a, c) + (if st.game % 2 == 1 && st.current == Some(TournamentPair(c, a)) {
                1int
            } else {
                0int
            }) == meetings(p, s as int, a as int, c as int) + (if met_below(
                st.top,
                st.bottom,
                st.pair as int,
                a as int,
                c as int,
            ) {
                1int
            } else {
                0int
            }));
        }
        s
    } else {
        let (t, b) = seats(p, s);
        let k = f.pair - 1;
        let rf = real_seat(p, s);
        if f.top == st.top && f.bottom == st.bottom && st.pair < f.pair
            && forall|k: int| st.pair <= k < f.pair - 1 ==> !real_slot(st.top, st.bottom, k, p) {
            assert(rf(k));
            lemma_count_one(rf, st.pair as int, k, f.pair as int);
            assert forall|a: usize, c: usize| a < players && c < players && a != c implies
                #[trigger] pair_count(out2, a, c) + (if f.game % 2 == 1 && f.current == Some(TournamentPair(c, a)) {
                    1int
                } else {
                    0int
                }) == meetings(p, s as int, a as int, c as int) + (if met_below(
                    f.top,
                    f.bottom,
                    f.pair as int,
                    a as int,
                    c as int,
                ) {
                    1int
                } else {
                    0int
                }) by {
                lemma_pair_count_push(out, res, a, c);
                assert(pair_count(out, a, c) == meetings(p, s as int, a as int, c as int) + (if met_below(
                    st.top,
                    st.bottom,
                    st.pair as int,
                    a as int,
                    c as int,
                ) {
                    1int
                } else {
                    0int
                }));
                lemma_no_meeting(p, s, st.pair as int, k, a as int, c as int);
                if faces(t, b, k, a as int, c as int) {
                    if met_below(t, b, st.pair as int, a as int, c as int) {
                        let k1 = choose|k1: int| 0 <= k1 < st.pair && #[trigger] faces(t, b, k1, a as int, c as int);
                        lemma_faces_unique(p, s, a as int, c as int, k1, k);
                    }
                    assert(met_below(t, b, f.pair as int, a as int, c as int));
                } else {
                    if met_below(t, b, f.pair as int, a as int, c as int) {
                        let k1 = choose|k1: int| 0 <= k1 < f.pair && #[trigger] faces(t, b, k1, a as int, c as int);
                        assert(k1 < st.pair);
                    }
                }
            }
            s
        } else {
            let s2 = s + 1;
            let (t2, b2) = seats(p, s2);
            lemma_seats(p, s2);
            let rf2 = real_seat(p, s2);
            assert(f.top == t2 && f.bottom == b2);
            lemma_count_none(rf, st.pair as int, h);
            assert(rf2(k));
            lemma_count_one(rf2, 0, k, f.pair as int);
            assert((s + 1) * r == s * r + r) by (nonlinear_arith);
            assert forall|a: usize, c: usize| a < players && c < players && a != c implies
                #[trigger] pair_count(out2, a, c) + (if f.game % 2 == 1 && f.current == Some(TournamentPair(c, a)) {
                    1int
                } else {
                    0int
                }) == meetings(p, s2 as int, a as int, c as int) + (if met_below(
                    f.top,
                    f.bottom,
                    f.pair as int,
                    a as int,
                    c as int,
                ) {
                    1int
                } else {
                    0int
                }) by {
                lemma_pair_count_push(out, res, a, c);
                assert(pair_count(out, a, c) == meetings(p, s as int, a as int, c as int) + (if met_below(
                    st.top,
                    st.bottom,
                    st.pair as int,
                    a as int,
                    c as int,
                ) {
                    1int
                } else {
                    0int
                }));
                lemma_no_meeting(p, s, st.pair as int, h, a as int, c as int);
                lemma_no_meeting(p, s2, 0, k, a as int, c as int);
                assert(meets_after(p, a as int, c as int)(s as int) == met_below(t, b, h, a as int, c as int));
                if met_below(t, b, h, a as int, c as int) {
                    let k1 = choose|k1: int| 0 <= k1 < h && #[trigger] faces(t, b, k1, a as int, c as int);
                    assert(k1 < st.pair);
                }
                if met_below(t2, b2, f.pair as int, a as int, c as int) {
                    let k1 = choose|k1: int| 0 <= k1 < f.pair && #[trigger] faces(t2, b2, k1, a as int, c as int);
                    assert(k1 == k);
                }
                if faces(t2, b2, k, a as int, c as int) {
                    assert(met_below(t2, b2, f.pair as int, a as int, c as int));
                }
            }
            s2
        }
    }
}

/// The games of the first `i` calls of `next` on a new schedule.
proof fn lemma_run_prefix(
    players: usize,
    rounds: usize,
    states: Seq<ScheduleView>,
    games: Seq<Option<TournamentPair>>,
    i: int,
) -> (s: nat)
    requires
        2 <= players < usize::MAX,
        games_fit(players as int, rounds as int),
        states.len() == games.len() + 1,
        games.len() <= games_spec(players as int, rounds as int),
        states[0] == first_view(players, rounds),
        forall|j: int| 0 <= j < games.len() ==> next_step(states[j], #[trigger] games[j], states[j + 1]),
        0 <= i <= games.len(),
    ensures
        run_inv(players, rounds, states[i], games.subrange(0, i), s),
    decreases i,
{
    let p = players as int;
    if i == 0 {
        let st = states[0];
        assert(st.top =~= seats(p, 0).0);
        assert(st.bottom =~= seats(p, 0).1);
        assert forall|a: usize, c: usize| a < players && c < players && a != c implies
            #[trigger] pair_count(games.subrange(0, 0), a, c) + (if st.game % 2 == 1 && st.current == Some(TournamentPair(c, a)) {
                1int
            } else {
                0int
            }) == meetings(p, 0, a as int, c as int) + (if met_below(
                st.top,
                st.bottom,
                st.pair as int,
                a as int,
                c as int,
            ) {
                1int
            } else {
                0int
            }) by {
        }
        0
    } else {
        let s = lemma_run_prefix(players, rounds, states, games, i - 1);
        let g = games[i - 1];
        let s2 = lemma_run_step(players, rounds, states[i - 1], games.subrange(0, i - 1), s, g, states[i]);
        assert(games.subrange(0, i - 1).push(g) =~= games.subrange(0, i));
        s2
    }
}

/// Round robin: from a new schedule of two players or more, the games that
/// `next` hands out, one call after another, are games between two
/// different players (never the bye), every second game is the one before
/// with the sides switched, each ordered pair of two different players gets
/// exactly `rounds` games (so each pair meets once with each color per
/// round), and after them `next` hands out nothing.
pub proof fn lemma_round_robin(
    players: usize,
    rounds: usize,
    states: Seq<ScheduleView>,
    games: Seq<Option<TournamentPair>>,
)
    requires
        2 <= players < usize::MAX,
        games_fit(players as int, rounds as int),
        states.len() == games.len() + 1,
        games.len() == games_spec(players as int, rounds as int),
        states[0] == first_view(players, rounds),
        forall|j: int| 0 <= j < games.len() ==> next_step(states[j], #[trigger] games[j], states[j + 1]),
    ensures
        forall|j: int| 0 <= j < games.len() ==> between_players(#[trigger] games[j], players),
        forall|k: int| 0 <= 2 * k + 1 < games.len() ==> #[trigger] games[2 * k + 1] == swapped(games[2 * k]),
        forall|a: usize, c: usize| a < players && c < players && a != c ==> #[trigger] pair_count(games, a, c)
            == rounds,
        forall|res: Option<TournamentPair>, f: ScheduleView| #[trigger] next_step(states.last(), res, f) ==> res is None,
{
    let p = players as int;
    let h = half(p);
    let r = h - p % 2;
    let m = ring_len(p);
    let n = games.len() as int;
    let s = lemma_run_prefix(players, rounds, states, games, n);
    assert(games.subrange(0, n) =~= games);
    let st = states[n];
    lemma_real_count(p, s);
    let rf = real_seat(p, s);
    lemma_count_mono(rf, st.pair as int, h);
    let rb = real_below(p, s, st.pair as int);
    let e = p % 2;
    assert(p * (p - 1) == 2 * r * m) by (nonlinear_arith)
        requires
            p == 2 * h - e,
            r == h - e,
            m == 2 * h - 1,
            e == 0 || e == 1,
    ;
    let big = m * rounds;
    assert(n == 2 * (r * big)) by (nonlinear_arith)
        requires
            n == p * (p - 1) * rounds,
            p * (p - 1) == 2 * r * m,
            big == m * rounds,
    ;
    assert(s * r + rb == r * big);
    assert(s == big && rb == 0 || s + 1 == big && rb == r) by (nonlinear_arith)
        requires
            s * r + rb == r * big,
            0 <= rb <= r,
            r >= 1,
            s >= 0,
    ;
    assert forall|a: usize, c: usize| a < players && c < players && a != c implies #[trigger] pair_count(games, a, c)
        == rounds by {
        lemma_meetings_turns(p, a as int, c as int, rounds as int);
        let (t, b) = seats(p, s);
        if met_below(t, b, st.pair as int, a as int, c as int) {
            let k = choose|k: int| 0 <= k < st.pair && #[trigger] faces(t, b, k, a as int, c as int);
            if s == big {
                lemma_count_mono(rf, 0, k);
                lemma_count_mono(rf, k + 1, st.pair as int);
                assert(rf(k));
            }
        }
        if s + 1 == big && rb == r {
            assert(meets_after(p, a as int, c as int)(s as int) == met_below(t, b, h, a as int, c as int));
            if met_below(t, b, h, a as int, c as int) {
                let k = choose|k: int| 0 <= k < h && #[trigger] faces(t, b, k, a as int, c as int);
                if k >= st.pair {
                    lemma_count_flat(rf, st.pair as int, k, h);
                    assert(rf(k));
                }
                assert(met_below(t, b, st.pair as int, a as int, c as int));
            }
        }
    }
}

} // verus!
