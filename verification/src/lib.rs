pub mod bitboard;
pub mod deployment;
pub mod perft;
pub mod policy;
pub mod random;
pub mod rng;
pub mod stratego;
pub mod text;
pub mod tournament;
pub mod value;
