//! Scoring engine for a Farkle-style dice game: a multiset of rolled dice,
//! the scoring combinations recognized in a roll, the generation of every
//! legal action for a roll, and the hand state machine that applies one.
pub mod cumulative_score;
pub mod dice_set;
pub mod disp;
pub mod hand;
