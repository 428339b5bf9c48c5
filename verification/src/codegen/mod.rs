//! Generation of Rust source for the items that accompany each message.
pub mod derive_gen;
