//! Session engine for a turn-based word-guessing game played over a chat
//! channel: a grader that scores each guess letter by letter, per-game state,
//! a lexicon of guessable words, and a registry that coordinates solo and
//! group play and expires stale sessions.

pub mod config;
pub mod registry;
pub mod wordle;
pub mod words;
