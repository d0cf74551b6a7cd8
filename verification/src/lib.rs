//! Calculation engine for `math:` and `sheet:` blocks in Markdown documents.
//!
//! The library holds the document-level logic: locating the statements of
//! a block, lexing and parsing them, the unit tables, evaluating
//! statements in a shared scope (numbers come from an [`eval::Arithmetic`]),
//! formatting results, the conversions between byte offsets and editor
//! positions, and the answers to an editor's requests.
pub mod text;
pub mod chars;
pub mod markdown;
pub mod lexer;
pub mod syntax;
pub mod parser;
pub mod units;
pub mod eval;
pub mod scope;
pub mod outcome;
pub mod value;
pub mod format;
pub mod analysis;
pub mod requests;
