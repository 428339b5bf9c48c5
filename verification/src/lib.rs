//! Schema parsing, message hashing and derive generation for `.smsg` files.
pub mod attribute;
pub mod codegen;
pub mod error;
pub mod hash;
pub mod ir;
pub mod parser;
pub mod text;
