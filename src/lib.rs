//! Cipher engine for generating text puzzles: substitution ciphers, the Hill
//! cipher, Morse fractionation ciphers, the Porta cipher and a cryptarithm
//! search.
pub mod ciphers;
pub mod corpus;
pub mod cryptogram;
pub mod quotes;
mod random;
pub mod text;
