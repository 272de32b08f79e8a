//! A small decoder from JSON text to a tree of typed values.
pub mod scan;
pub mod text;
pub mod number;
pub mod value;
pub mod parse;
pub mod segment;
pub mod laws;
