//! The command-line parameter records, as plain data.  The surrounding
//! application derives its argument parser over mirror types and hands
//! these records in.

use vstd::prelude::*;

verus! {

/// Parameters for looking up words.
pub struct LookUp {
    /// A specific local dictionary directory, instead of the defaults.
    pub local_dicts: Option<String>,
    /// Use the online dictionary.
    pub use_online: bool,
    /// Try offline dictionaries first, then the online one.
    pub local_first: bool,
    /// Disable fuzzy search; only exact matches answer.
    pub exact_search: bool,
    /// Play the word's pronunciation.
    pub read_aloud: bool,
    /// The words being looked up.
    pub word: Option<Vec<String>>,
}

/// Parameters for listing history.
pub struct List {
    /// Sort lexicographically.
    pub sort_alphabetically: bool,
    /// Output to a table.
    pub format_as_table: bool,
    /// The number of columns in the table.
    pub max_column: usize,
    /// The difficulty level of the words to list.
    pub difficulty_level: Option<String>,
}

} // verus!
