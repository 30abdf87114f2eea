//! A personal command-history store with fuzzy recall.
//!
//! The log store, the recall engine and the interactive picker's state
//! machine are verified; the terminal, the file system and the record
//! encoding are left to the program that embeds this library.

pub mod history;
pub mod lines;
pub mod order;
pub mod recall;
pub mod scope;
pub mod search;
pub mod seqs;
pub mod session;
pub mod storage;
mod text;
pub mod timefmt;
