//! Counts bytes, characters, words, lines and the longest line of byte streams.
pub mod tally;
pub mod utf8;
pub mod counter;
pub mod laws;
pub mod report;
pub mod options;
pub mod locale;
