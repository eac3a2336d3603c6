//! Tournaments between engines: rankings and the round-robin schedule.
pub mod rating;
pub mod schedule;
pub mod referee;
pub mod round_robin;
