//! The capability interface every dictionary source answers: a name, a
//! kind, and a lookup that is exact or fuzzy.  Local binary-format
//! dictionaries implement it here; other sources (an online service, a
//! model-backed translator) implement it in the surrounding application.

use vstd::prelude::*;

pub mod offline;
pub mod online;
pub mod stardict;

verus! {

/// The kind of a dictionary source.
#[derive(Clone, Copy, Debug, PartialEq, Eq, Structural)]
pub enum DictType {
    OnlineDict,
    StarDict,
    LLM,
}

impl DictType {
    /// A display label for the kind.
    pub fn label(&self) -> (r: &'static str)
        ensures
            r@ == match self {
                DictType::OnlineDict => "OnlineDict"@,
                DictType::StarDict => "StarDict"@,
                DictType::LLM => "LLM"@,
            },
    {
        match self {
            DictType::OnlineDict => "OnlineDict",
            DictType::StarDict => "StarDict",
            DictType::LLM => "LLM",
        }
    }
}

/// The difficulty grade of a word, carried verbatim.
pub type DifficultyLevel = String;

/// One answer to a lookup.
pub struct LookUpResultItem {
    pub word: String,
    pub translation: String,
    pub difficulty_levels: Vec<DifficultyLevel>,
}

impl LookUpResultItem {
    /// An answer with no difficulty grades.
    pub fn new(word: String, translation: String) -> (r: LookUpResultItem)
        ensures
            r.word@ == word@,
            r.translation@ == translation@,
            r.difficulty_levels@.len() == 0,
    {
        LookUpResultItem { word, translation, difficulty_levels: Vec::new() }
    }

    /// An answer with its difficulty grades.
    pub fn new_with_difficulty_levels(
        word: String,
        translation: String,
        difficulty_levels: Vec<DifficultyLevel>,
    ) -> (r: LookUpResultItem)
        ensures
            r.word@ == word@,
            r.translation@ == translation@,
            r.difficulty_levels == difficulty_levels,
    {
        LookUpResultItem { word, translation, difficulty_levels }
    }
}

/// What a lookup came back with: an exact match, the fuzzy candidates,
/// or nothing.
pub enum LookUpResult {
    Exact(LookUpResultItem),
    Fuzzy(Vec<LookUpResultItem>),
    NotFound,
}

/// A word looked up from the online dictionary, as the application's
/// network layer fills it in.
pub struct WordItem {
    /// The word being looked up.
    pub word: String,
    /// Is an English word?
    pub is_en: bool,
    /// The meaning or the translation of the word.
    pub trans: String,
    /// The difficulty levels of the word, when any were found.
    pub types: Option<Vec<String>>,
}

/// The interface a dictionary source answers.  Implementations outside
/// this crate are unverified collaborators; nothing here is proved about
/// them.
pub trait Dict {
    fn name(&self) -> &str;

    fn type_(&self) -> DictType;

    fn supports_fuzzy_search(&self) -> bool;

    fn look_up(&self, enable_fuzzy: bool, word: &str) -> LookUpResult;

    fn word_count(&self) -> Option<usize>;
}

} // verus!
