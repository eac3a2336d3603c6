//! The results of one engine in a tournament.
use vstd::prelude::*;

verus! {

/// The result of one game for one player.
#[derive(Clone, Copy, PartialEq, Eq, Debug, Structural)]
pub enum Reward {
    Loss,
    Draw,
    Win,
}

pub struct Ranking {
    index: usize,
    wins: usize,
    draws: usize,
    losses: usize,
}

/// The contents of a `Ranking`.
pub struct RankingView {
    pub index: usize,
    pub wins: usize,
    pub draws: usize,
    pub losses: usize,
}

impl View for Ranking {
    type V = RankingView;

    closed spec fn view(&self) -> RankingView {
        RankingView { index: self.index, wins: self.wins, draws: self.draws, losses: self.losses }
    }
}

impl Ranking {
    /// No games yet for the engine with index `index`.
    pub fn new(index: usize) -> (res: Self)
        ensures
            res@ == (RankingView { index, wins: 0, draws: 0, losses: 0 }),
    {
        Self { index, wins: 0, draws: 0, losses: 0 }
    }

    /// Counts the result of one more game.
    pub fn update(&mut self, reward: Reward)
        requires
            reward == Reward::Loss ==> old(self)@.losses < usize::MAX,
            reward == Reward::Draw ==> old(self)@.draws < usize::MAX,
            reward == Reward::Win ==> old(self)@.wins < usize::MAX,
        ensures
            final(self)@ == match reward {
                Reward::Loss => RankingView { losses: (old(self)@.losses + 1) as usize, ..old(self)@ },
                Reward::Draw => RankingView { draws: (old(self)@.draws + 1) as usize, ..old(self)@ },
                Reward::Win => RankingView { wins: (old(self)@.wins + 1) as usize, ..old(self)@ },
            },
    {
        match reward {
            Reward::Loss => self.losses += 1,
            Reward::Draw => self.draws += 1,
            Reward::Win => self.wins += 1,
        }
    }

    pub fn index(&self) -> (res: usize)
        ensures
            res == self@.index,
    {
        self.index
    }

    pub fn wins(&self) -> (res: usize)
        ensures
            res == self@.wins,
    {
        self.wins
    }

    pub fn draws(&self) -> (res: usize)
        ensures
            res == self@.draws,
    {
        self.draws
    }

    pub fn losses(&self) -> (res: usize)
        ensures
            res == self@.losses,
    {
        self.losses
    }
}

} // verus!
