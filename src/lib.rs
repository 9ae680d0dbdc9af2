//! Log-file retention and rotation: a small configuration-file lexer and
//! table builder, a typed configuration extractor, and the decision logic
//! that evaluates and rotates each managed file.
pub mod cleaner;
pub mod command;
pub mod config;
pub mod text;
