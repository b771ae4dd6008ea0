//! Guess which separator character a delimited-value text most likely uses.
//!
//! The guesser holds the full decoded text and answers queries with a
//! two-level plurality vote: each line elects the candidate separator that
//! occurs most often on it, and the candidate that wins the most lines is
//! the overall guess.

pub mod guesser;
pub mod model;

pub use guesser::Error;
pub use guesser::GuessSeparator;
pub use guesser::MostFrequentLineByLine;
