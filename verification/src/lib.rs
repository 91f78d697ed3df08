//! Verified core of the Monte Carlo market simulator: seed derivation,
//! order books and matching, position-limit enforcement, the bot taker
//! flow, replay bucketing, command-line parsing, and the order and columns
//! of the tables it writes.

pub mod seeds;
pub mod book;
pub mod matching;
pub mod rng;
pub mod limits;
pub mod taker;
pub mod replay;
pub mod cli;
pub mod config;
pub mod quotes;
pub mod columns;
pub mod rows;
