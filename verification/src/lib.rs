//! RePair grammar compression: builds a straight-line grammar from a byte
//! string by repeatedly replacing the most frequent pair of adjacent symbols
//! with a fresh variable, and encodes such grammars as bit sequences.
pub mod bits;
pub mod ds;
pub mod gamma;
pub mod maxinc;
pub mod module;
pub mod poppt;
