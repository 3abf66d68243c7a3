//! Verified core of a log watcher: it tails a growing log file line by line,
//! recognises the events that matter in each line, keeps the tally of shots
//! and kills, and reads the key/value configuration that drives it.

pub mod text;
pub mod lines;
pub mod tailer;
pub mod patterns;
pub mod tally;
pub mod config;
