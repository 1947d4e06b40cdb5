//! Inspecting and querying decoded Cardano transactions.
//!
//! The heart of the library is a small query language: a path in dot
//! notation, with wildcards, indices, filters in brackets and shortcuts for
//! the paths that are asked for most, is parsed and then executed against a
//! document, a tree of null, boolean, number, string, array and object
//! nodes. Around it stand the document of a transaction, the reading of
//! numbers as doubles in integer arithmetic, and what the command line needs:
//! arguments, input sources, errors and text for display.

pub mod address;
pub mod bignum;
pub mod cli;
pub mod decimal;
pub mod diagnostic;
pub mod document;
pub mod double;
pub mod engine;
pub mod error;
pub mod format;
pub mod hexcode;
pub mod input;
pub mod path;
pub mod render;
pub mod shortcuts;
pub mod text;
pub mod transaction;
pub mod update;
pub mod value;
