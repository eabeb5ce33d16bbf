//! A verified parser for Quake 3 Arena dedicated-server logs.
//!
//! The parser folds the lines of a log into a mapping from synthetic match
//! ids (`game_0`, `game_1`, ...) to per-match summaries: total kill count,
//! player roster, per-player score, kill counts by means of death, and a
//! final ranking sorted by score.

pub mod events;
pub mod ids;
pub mod laws;
pub mod parser;
pub mod ranking;
pub mod records;
pub mod table;
pub mod text;
