//! Endgame territory scoring for a Go-like territorial board game.
//!
//! When live play ends the game enters a scoring phase: connected groups of
//! stones may be marked dead or alive, empty regions are attributed to the
//! single team whose living stones enclose them, and the phase concludes once
//! every seat has accepted the result.  This crate holds the board and group
//! primitives, the flood-fill territory scorer, and the per-seat consensus
//! state machine, each with a verified contract.

pub mod grid;
pub mod region;
pub mod groups;
pub mod territory;
pub mod scoring;
