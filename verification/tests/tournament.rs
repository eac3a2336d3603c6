use stratego::tournament::rating::{Ranking, Reward};
use stratego::tournament::schedule::{Schedule, TournamentPair};

fn pairs(players: usize, rounds: usize) -> Vec<(usize, usize)> {
    let mut schedule = Schedule::from(players, rounds);
    let mut out = Vec::new();
    while let Some(TournamentPair(a, b)) = schedule.next() {
        out.push((a, b));
    }
    out
}

#[test]
fn schedule_four_players() {
    assert_eq!(Schedule::from(4, 1).games(), 12);
    assert_eq!(
        pairs(4, 1),
        vec![
            (0, 2), (2, 0), (1, 3), (3, 1), (0, 3), (3, 0),
            (2, 1), (1, 2), (0, 1), (1, 0), (3, 2), (2, 3)
        ]
    );
}

#[test]
fn schedule_odd_players_skip_bye() {
    assert_eq!(
        pairs(3, 1),
        vec![(0, 2), (2, 0), (2, 1), (1, 2), (0, 1), (1, 0)]
    );
    let five = pairs(5, 1);
    assert_eq!(five.len(), 20);
    for a in 0..5 {
        for b in 0..5 {
            if a != b {
                assert_eq!(five.iter().filter(|p| **p == (a, b)).count(), 1);
            }
        }
    }
}

#[test]
fn schedule_rounds_repeat() {
    let two = pairs(4, 2);
    assert_eq!(two.len(), 24);
    assert_eq!(two[..12], two[12..]);
    assert_eq!(pairs(2, 1), vec![(0, 1), (1, 0)]);
    assert!(pairs(1, 3).is_empty());
}

#[test]
fn schedule_each_pair_once_per_round() {
    for players in 2..9 {
        let games = pairs(players, 3);
        assert_eq!(games.len(), players * (players - 1) * 3);
        for a in 0..players {
            for b in 0..players {
                if a != b {
                    assert_eq!(games.iter().filter(|p| **p == (a, b)).count(), 3);
                }
            }
        }
    }
}

#[test]
fn ranking_counts() {
    let mut r = Ranking::new(3);
    assert_eq!(r.index(), 3);
    r.update(Reward::Win);
    r.update(Reward::Win);
    r.update(Reward::Draw);
    r.update(Reward::Loss);
    assert_eq!(r.wins(), 2);
    assert_eq!(r.draws(), 1);
    assert_eq!(r.losses(), 1);
}
