//! Reader for `.meg` archives: header validation, name and file tables,
//! and extraction of single members out of an in-memory source.
pub mod image;
pub mod laws;
pub mod parser;
pub mod select;
pub mod wire;
