//! An in-memory engine for browsing large tab-separated text files: byte
//! encoding detection and decoding, tolerant tab-delimited parsing, a keyed
//! cache of parsed tables, and a sort/filter view index with paginated reads.

pub mod commands;
pub mod encoding;
pub mod numcmp;
pub mod parser;
pub mod state;
pub mod text;

use vstd::prelude::*;

verus! {

/// Every failure the library reports, as a typed outcome.
#[derive(Clone, Copy, PartialEq, Eq, Structural, Debug)]
pub enum TsvError {
    /// The requested file path has no cache entry.
    NotFound,
    /// The encoding label names no known encoding.
    UnsupportedEncoding,
    /// The target encoding cannot represent some character of the text.
    UnencodableCharacters,
}

} // verus!
