//! Parsing of chunks: what a dialect means, and the parsers that read it.

pub mod api;
pub mod chunk;
pub mod dfa;
pub mod driver;
pub mod fold;
pub mod grammar;
pub mod laws;
pub mod output;
pub mod simd;
pub mod spelling;
pub mod text;
