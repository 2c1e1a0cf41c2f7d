//! Grammars, their construction by RePair, and their encodings.
pub mod cfg;
pub mod comp;
pub mod encode;
pub mod poppt;
