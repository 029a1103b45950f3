//! A minimal dotenv-style configuration library.
//!
//! The parser turns the text of a configuration file into an ordered
//! sequence of `(key, value)` pairs: each line is truncated at the first
//! `#` (a comment), split at the first `=`, and both sides are trimmed of
//! ASCII whitespace. Lines without `=` are skipped silently.
//!
//! An in-memory environment table applies such pairs with last-write-wins
//! semantics and hands lookups back as a [`Value`], which offers typed
//! conversions of the raw text.

pub mod convert;
pub mod env_table;
pub mod parse;

pub use convert::LookupResult;
pub use convert::Value;
pub use env_table::EnvTable;
pub use parse::parse_dotconf;

use vstd::prelude::*;

verus! {

/// Error type wrapping a human-readable message, produced only for
/// failures to open or read a configuration file.
#[derive(Clone, Debug)]
pub struct Error(String);

impl Error {
    /// The message as a mathematical sequence of characters.
    pub closed spec fn view(&self) -> Seq<char> {
        self.0@
    }

    /// Wraps a message, kept verbatim.
    pub fn new(message: String) -> (e: Error)
        ensures
            e@ == message@,
    {
        Error(message)
    }

    /// Hands the wrapped message back, verbatim.
    pub fn to_string(self) -> (r: String)
        ensures
            r@ == self@,
    {
        self.0
    }
}

} // verus!
