//! Helpers that the rules share.

pub mod rand;
pub mod seqs;
pub mod text;
