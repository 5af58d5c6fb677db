//! A line-oriented set-difference filter for text files.
//!
//! The library removes from a target file's lines those that exactly match
//! a key extracted from some line of a query file. Keys are derived by
//! separator-based column extraction. All text is handled as raw bytes;
//! lines are separated by the newline byte.

pub mod extract;
pub mod filter;
pub mod text;
