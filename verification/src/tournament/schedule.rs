//! Round-robin pairings: every player meets every other, with both colors.
use vstd::prelude::*;

verus! {

/// Red and blue player of a game.
#[derive(Clone, Copy, PartialEq, Eq, Debug, Structural)]
pub struct TournamentPair(pub usize, pub usize);

/// The pairings by the circle method: the players sit in two rows, `top`
/// and `bottom`; in each round the players facing each other meet, then all
/// but the first move one seat around. With an odd number of players the
/// extra seat `players` means a bye. Every second game repeats the last with
/// switched sides.
pub struct Schedule {
    players: usize,
    rounds: usize,
    game: usize,
    pair: usize,
    top: Vec<usize>,
    bottom: Vec<usize>,
    current: Option<TournamentPair>,
}

/// The contents of a `Schedule`.
pub struct ScheduleView {
    pub players: usize,
    pub rounds: usize,
    pub game: usize,
    pub pair: usize,
    pub top: Seq<usize>,
    pub bottom: Seq<usize>,
    pub current: Option<TournamentPair>,
}

impl View for Schedule {
    type V = ScheduleView;

    closed spec fn view(&self) -> ScheduleView {
        ScheduleView {
            players: self.players,
            rounds: self.rounds,
            game: self.game,
            pair: self.pair,
            top: self.top@,
            bottom: self.bottom@,
            current: self.current,
        }
    }
}

/// Number of games: each ordered pair of players once per round.
pub open spec fn games_spec(players: int, rounds: int) -> int {
    players * (players - 1) * rounds
}

/// `games` computes the number without overflow.
pub open spec fn games_fit(players: int, rounds: int) -> bool {
    players >= 1 && players * (players - 1) <= usize::MAX && games_spec(players, rounds) <= usize::MAX
}

/// The seats after one move: the first seat of the top row stays, the first
/// of the bottom row moves to the second top seat, the last top seat moves
/// to the end of the bottom row.
pub open spec fn inserted_top(top: Seq<usize>, bottom: Seq<usize>) -> Seq<usize> {
    seq![top[0], bottom[0]] + top.subrange(1, top.len() as int)
}

pub open spec fn rotated_top(top: Seq<usize>, bottom: Seq<usize>) -> Seq<usize> {
    inserted_top(top, bottom).drop_last()
}

pub open spec fn rotated_bottom(top: Seq<usize>, bottom: Seq<usize>) -> Seq<usize> {
    bottom.drop_first().push(inserted_top(top, bottom).last())
}

/// The position in the seats before a move of the player in seat `i` of the
/// seats after it (the top row first, then the bottom row).
pub open spec fn seat_before(len: int, i: int) -> int {
    if i < len {
        if len == 1 {
            0
        } else if i == 0 {
            0
        } else if i == 1 {
            len
        } else {
            i - 1
        }
    } else {
        let j = i - len;
        if len == 1 {
            len
        } else if j < len - 1 {
            len + j + 1
        } else {
            len - 1
        }
    }
}

pub proof fn lemma_rotate(players: int, top: Seq<usize>, bottom: Seq<usize>)
    requires
        players >= 2,
        seating(players, top, bottom),
    ensures
        seating(players, rotated_top(top, bottom), rotated_bottom(top, bottom)),
        forall|i: int| 0 <= i < 2 * top.len() ==> (#[trigger] (rotated_top(top, bottom) + rotated_bottom(top, bottom))[i]) == (top + bottom)[seat_before(top.len() as int, i)],
{
    let len = top.len() as int;
    let rt = rotated_top(top, bottom);
    let rb = rotated_bottom(top, bottom);
    let all = top + bottom;
    let rall = rt + rb;
    assert(rt.len() == len);
    assert(rb.len() == len);
    assert forall|i: int| 0 <= i < 2 * len implies #[trigger] rall[i] == all[seat_before(len, i)] && 0 <= seat_before(len, i) < 2 * len by {
        if i < len {
            assert(rall[i] == rt[i]);
        } else {
            assert(rall[i] == rb[i - len]);
        }
    }
    assert forall|i: int, j: int| 0 <= i < j < rall.len() implies #[trigger] rall[i] != #[trigger] rall[j] by {
        assert(seat_before(len, i) != seat_before(len, j));
        assert(rall[i] == all[seat_before(len, i)]);
        assert(rall[j] == all[seat_before(len, j)]);
    }
    assert forall|i: int| 0 <= i < rall.len() implies #[trigger] rall[i] < players + players % 2 by {
        assert(rall[i] == all[seat_before(len, i)]);
    }
}

/// Seat `k` pairs two real players.
pub open spec fn real_slot(top: Seq<usize>, bottom: Seq<usize>, k: int, players: int) -> bool {
    top[k] < players && bottom[k] < players
}

/// The seats hold each of `0..count` once, with `count` the number of
/// players rounded up to even, and player 0 in the first top seat.
pub open spec fn seating(players: int, top: Seq<usize>, bottom: Seq<usize>) -> bool {
    let count = players + players % 2;
    let all = top + bottom;
    &&& top.len() == count / 2
    &&& bottom.len() == count / 2
    &&& forall|i: int| 0 <= i < all.len() ==> #[trigger] all[i] < count
    &&& forall|i: int, j: int| 0 <= i < j < all.len() ==> #[trigger] all[i] != #[trigger] all[j]
    &&& top.len() > 0 ==> top[0] == 0
}

/// Two different seats cannot both be byes: only one seat holds the extra
/// player.
proof fn lemma_one_bye(players: int, top: Seq<usize>, bottom: Seq<usize>, i: int, j: int)
    requires
        players >= 2,
        seating(players, top, bottom),
        0 <= i < top.len(),
        0 <= j < top.len(),
        i != j,
    ensures
        real_slot(top, bottom, i, players) || real_slot(top, bottom, j, players),
{
    let all = top + bottom;
    let len = top.len() as int;
    assert(all[i] == top[i]);
    assert(all[j] == top[j]);
    assert(all[len + i] == bottom[i]);
    assert(all[len + j] == bottom[j]);
}

/// A bye needs an odd number of players, and so at least two seats per row.
proof fn lemma_bye_odd(players: int, top: Seq<usize>, bottom: Seq<usize>, k: int)
    requires
        players >= 2,
        seating(players, top, bottom),
        0 <= k < top.len(),
        !real_slot(top, bottom, k, players),
    ensures
        players % 2 == 1,
        top.len() >= 2,
{
    let all = top + bottom;
    let len = top.len() as int;
    assert(all[k] == top[k]);
    assert(all[len + k] == bottom[k]);
}

/// After a bye in the last seat and a move, the first seat is a bye only
/// with two seats per row.
proof fn lemma_rotated_bye(players: int, top: Seq<usize>, bottom: Seq<usize>)
    requires
        players >= 2,
        seating(players, top, bottom),
        top.len() >= 1,
        !real_slot(top, bottom, top.len() - 1, players),
    ensures
        !real_slot(rotated_top(top, bottom), rotated_bottom(top, bottom), 0, players) ==> top.len() == 2,
{
    let len = top.len() as int;
    let all = top + bottom;
    lemma_rotate(players, top, bottom);
    let rall = rotated_top(top, bottom) + rotated_bottom(top, bottom);
    assert(all[len - 1] == top[len - 1]);
    assert(all[2 * len - 1] == bottom[len - 1]);
    assert(rall[0] == rotated_top(top, bottom)[0]);
    assert(rall[len] == rotated_bottom(top, bottom)[0]);
    assert(all[0] == top[0]);
    if len == 1 {
        assert(rall[0] == all[0]);
        assert(rall[1] == all[1]);
    }
}

/// What one call of `next` does to a schedule `o`, giving `res` and
/// leaving `f`: nothing after the last game; every second game is the
/// previous one with switched sides; otherwise the next seat, in the current
/// seating or after one move, where two real players face each other.
pub open spec fn next_step(o: ScheduleView, res: Option<TournamentPair>, f: ScheduleView) -> bool {
    let total = games_spec(o.players as int, o.rounds as int);
    &&& f.players == o.players
    &&& f.rounds == o.rounds
    &&& o.game >= total ==> res is None && f == o
    &&& o.game < total ==> f.game == o.game + 1
    &&& o.game < total && o.game % 2 == 1 ==> (
        o.current matches Some(TournamentPair(r, b)) && res == Some(TournamentPair(b, r))
        && f == ScheduleView { game: (o.game + 1) as usize, ..o })
    &&& o.game < total && o.game % 2 == 0 ==> {
        &&& 1 <= f.pair <= f.top.len()
        &&& res == Some(TournamentPair(f.top[f.pair - 1], f.bottom[f.pair - 1]))
        &&& f.current == res
        &&& real_slot(f.top, f.bottom, f.pair - 1, f.players as int)
        &&& f.top[f.pair - 1] != f.bottom[f.pair - 1]
        &&& {
            ||| f.top == o.top && f.bottom == o.bottom && o.pair < f.pair
                && forall|k: int| o.pair <= k < f.pair - 1 ==> !real_slot(o.top, o.bottom, k, o.players as int)
            ||| f.top == rotated_top(o.top, o.bottom) && f.bottom == rotated_bottom(o.top, o.bottom)
                && (forall|k: int| o.pair <= k < o.top.len() ==> !real_slot(o.top, o.bottom, k, o.players as int))
                && (forall|k: int| 0 <= k < f.pair - 1 ==> !real_slot(f.top, f.bottom, k, f.players as int))
        }
    }
}

/// A new schedule: the players in order, the first half in the top row.
pub open spec fn first_view(players: usize, rounds: usize) -> ScheduleView {
    let half = (players + players % 2) / 2;
    ScheduleView {
        players,
        rounds,
        game: 0,
        pair: 0,
        top: Seq::new(half as nat, |i: int| i as usize),
        bottom: Seq::new(half as nat, |i: int| (i + half) as usize),
        current: None,
    }
}

impl Schedule {
    /// The invariant of a schedule that `next` keeps.
    pub closed spec fn wf(&self) -> bool {
        let v = self@;
        &&& 2 <= v.players < usize::MAX
        &&& games_fit(v.players as int, v.rounds as int)
        &&& seating(v.players as int, v.top, v.bottom)
        &&& v.pair <= v.top.len()
        &&& v.game <= games_spec(v.players as int, v.rounds as int)
        &&& v.game % 2 == 1 ==> (v.current matches Some(TournamentPair(r, b)) && r < v.players && b < v.players && r != b)
    }

    /// The schedule of `players` players for `rounds` double rounds.
    pub fn from(players: usize, rounds: usize) -> (res: Self)
        requires
            players < usize::MAX,
        ensures
            res@ == first_view(players, rounds),
            2 <= players && games_fit(players as int, rounds as int) ==> res.wf(),
    {
        let count = players + (players % 2);
        let half = count / 2;

        let mut top: Vec<usize> = Vec::new();
        let mut i: usize = 0;
        while i < half
            invariant
                half == count / 2,
                i <= half,
                top@ == Seq::new(i as nat, |k: int| k as usize),
            decreases half - i,
        {
            top.push(i);
            i += 1;
            proof {
                assert(top@ =~= Seq::new(i as nat, |k: int| k as usize));
            }
        }
        let mut bottom: Vec<usize> = Vec::new();
        let mut j: usize = half;
        while j < count
            invariant
                half == count / 2,
                count == players + players % 2,
                half <= j <= count,
                bottom@ == Seq::new((j - half) as nat, |k: int| (k + half) as usize),
            decreases count - j,
        {
            bottom.push(j);
            j += 1;
            proof {
                assert(bottom@ =~= Seq::new((j - half) as nat, |k: int| (k + half) as usize));
            }
        }
        proof {
            assert(count - half == half);
        }

        let res = Schedule { players, rounds, game: 0, pair: 0, top, bottom, current: None };
        proof {
            let all = res@.top + res@.bottom;
            assert forall|a: int| 0 <= a < all.len() implies #[trigger] all[a] == a by {
                if a < half {
                } else {
                    assert(all[a] == res@.bottom[a - half]);
                }
            }
        }
        res
    }

    /// The next game: `None` after the last game; every second game is the
    /// previous one with switched sides; otherwise the next seat, in the
    /// current seating or after one move, where two real players face each
    /// other.
    pub fn next(&mut self) -> (res: Option<TournamentPair>)
        requires
            old(self).wf(),
        ensures
            final(self).wf(),
            next_step(old(self)@, res, final(self)@),
    {
        if self.game >= self.games() {
            return None;
        }

        // Every second game has switched sides
        if self.game % 2 != 0 {
            self.game += 1;
            let current = match self.current {
                Some(c) => c,
                None => {
                    proof {
                        assert(false);
                    }
                    TournamentPair(0, 0)
                },
            };
            return Some(TournamentPair(current.1, current.0));
        }

        let ghost o = self@;
        let ghost players = self.players as int;
        let ghost count = players + players % 2;
        let ghost mut byes: int = 0;
        let ghost mut rotated: bool = false;
        loop
            invariant
                self@.players == o.players,
                self@.rounds == o.rounds,
                self@.game == o.game,
                self@.current == o.current,
                players == o.players,
                count == players + players % 2,
                2 <= players < usize::MAX,
                games_fit(players, o.rounds as int),
                o.game < games_spec(players, o.rounds as int),
                o.game % 2 == 0,
                o == old(self)@,
                seating(players, self@.top, self@.bottom),
                self@.pair <= self@.top.len(),
                0 <= byes <= 2,
                byes >= 1 ==> self@.pair >= 1 && !real_slot(self@.top, self@.bottom, self@.pair - 1, players),
                byes == 2 ==> self@.pair == 1 && self@.top.len() == 2 && rotated,
                !rotated ==> self@.top == o.top && self@.bottom == o.bottom && o.pair <= self@.pair
                    && forall|k: int| o.pair <= k < self@.pair ==> !real_slot(o.top, o.bottom, k, players),
                rotated ==> self@.top == rotated_top(o.top, o.bottom) && self@.bottom == rotated_bottom(o.top, o.bottom)
                    && (forall|k: int| o.pair <= k < o.top.len() ==> !real_slot(o.top, o.bottom, k, players))
                    && (forall|k: int| 0 <= k < self@.pair ==> !real_slot(self@.top, self@.bottom, k, players)),
            decreases 3 - byes,
        {
            let ghost before = self@;
            if self.pair >= self.top.len() {
                proof {
                    lemma_rotate(players, self@.top, self@.bottom);
                    if rotated {
                        // a whole seating of byes is impossible: at most one seat holds the extra player
                        lemma_bye_odd(players, self@.top, self@.bottom, 0);
                        lemma_one_bye(players, self@.top, self@.bottom, 0, 1);
                        assert(false);
                    }
                }
                self.pair = 0;
                let b = self.bottom.remove(0);
                self.top.insert(1, b);
                let t = match self.top.pop() {
                    Some(t) => t,
                    None => {
                        proof {
                            assert(false);
                        }
                        0
                    },
                };
                self.bottom.push(t);
                proof {
                    assert(self@.top =~= rotated_top(before.top, before.bottom));
                    assert(self@.bottom =~= rotated_bottom(before.top, before.bottom));
                    if byes == 1 {
                        lemma_rotated_bye(players, before.top, before.bottom);
                    }
                    rotated = true;
                }
            }
            let red = self.top[self.pair];
            let blue = self.bottom[self.pair];
            self.pair += 1;

            // If number of players is odd one player does not play this round
            if red < self.players && blue < self.players {
                self.game += 1;
                self.current = Some(TournamentPair(red, blue));
                proof {
                    let all = self@.top + self@.bottom;
                    let len = self@.top.len() as int;
                    assert(all[self@.pair - 1] == red);
                    assert(all[len + self@.pair - 1] == blue);
                }
                return self.current;
            }
            proof {
                if byes == 1 {
                    if self@.pair - 1 != 0 {
                        assert(before.top == self@.top && before.bottom == self@.bottom);
                        lemma_one_bye(players, self@.top, self@.bottom, self@.pair - 2, self@.pair - 1);
                        assert(false);
                    }
                }
                if byes == 2 {
                    assert(before.top == self@.top && before.bottom == self@.bottom);
                    lemma_one_bye(players, self@.top, self@.bottom, 0, 1);
                    assert(false);
                }
                byes = byes + 1;
            }
        }
    }

    /// Number of games: each ordered pair of players once per round.
    pub fn games(&self) -> (res: usize)
        requires
            games_fit(self@.players as int, self@.rounds as int),
        ensures
            res == games_spec(self@.players as int, self@.rounds as int),
    {
        proof {
            let p = self@.players as int;
            assert(0 <= p * (p - 1)) by (nonlinear_arith)
                requires p >= 1;
        }
        (self.players * (self.players - 1)) * self.rounds
    }
}

} // verus!
