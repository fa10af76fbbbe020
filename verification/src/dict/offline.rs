//! A local stardict wrapped as a dictionary source.

use vstd::prelude::*;
use vstd::utf8::encode_utf8;

use crate::dict::stardict::StarDict;
use crate::dict::{Dict, DictType, LookUpResult, LookUpResultItem};
use crate::index::EntryModel;
use crate::metadata::MetaModel;
use crate::stardict::{fuzzy_dist, fuzzy_matches, min_fuzzy};
use crate::text::lower_of;

verus! {

/// Whether some record of an index matches the query case-insensitively.
pub open spec fn has_ci_match(index: Seq<EntryModel>, q: Seq<char>) -> bool {
    exists|i: int| 0 <= i < index.len() && lower_of((#[trigger] index[i]).word) == lower_of(q)
}

/// An offline dictionary: a loaded stardict under its display name.
pub struct OfflineDict {
    name: String,
    stardict: StarDict,
}

impl OfflineDict {
    /// The records of the underlying stardict.
    pub closed spec fn index(&self) -> Seq<EntryModel> {
        self.stardict.index()
    }

    /// The payload bytes of the underlying stardict.
    pub closed spec fn payload_bytes(&self) -> Seq<u8> {
        self.stardict.payload_bytes()
    }

    /// The metadata of the underlying stardict.
    pub closed spec fn meta(&self) -> MetaModel {
        self.stardict.meta()
    }

    /// The display name carried beside the stardict.
    pub closed spec fn name_spec(&self) -> Seq<char> {
        self.name@
    }

    /// Wrap a loaded stardict, taking its book name as the display name.
    pub fn new(stardict: StarDict) -> (r: OfflineDict)
        ensures
            r.index() == stardict.index(),
            r.payload_bytes() == stardict.payload_bytes(),
            r.meta() == stardict.meta(),
            r.name_spec() == stardict.meta().bookname,
    {
        let name = stardict.dict_name().to_owned();
        OfflineDict { name, stardict }
    }

    /// Answer a query: an exact (case-insensitive) match when one exists,
    /// else the fuzzy candidates when fuzzy search is enabled and the
    /// dictionary has records at all, else nothing.
    pub fn query(&self, enable_fuzzy: bool, word: &str) -> (r: LookUpResult)
        ensures
            (r is Exact) <==> has_ci_match(self.index(), word@),
            r matches LookUpResult::Exact(item) ==> {
                &&& lower_of(item.word@) == lower_of(word@)
                &&& exists|i: int|
                    0 <= i < self.index().len() && (#[trigger] self.index()[i]).word == item.word@
                        && encode_utf8(item.translation@) == self.payload_bytes().subrange(
                        self.index()[i].offset,
                        self.index()[i].offset + self.index()[i].length,
                    )
            },
            r matches LookUpResult::Fuzzy(items) ==> {
                &&& !has_ci_match(self.index(), word@)
                &&& enable_fuzzy
                &&& items@.len() == fuzzy_matches(
                    self.index(),
                    word@,
                    min_fuzzy(self.index(), word@),
                ).len()
                &&& items@.len() >= 1
                &&& forall|k: int|
                    0 <= k < items@.len() ==> (#[trigger] items@[k]).word@ == fuzzy_matches(
                        self.index(),
                        word@,
                        min_fuzzy(self.index(), word@),
                    )[k].word
                &&& forall|k: int|
                    0 <= k < items@.len() ==> encode_utf8((#[trigger] items@[k]).translation@)
                        == self.payload_bytes().subrange(
                        fuzzy_matches(self.index(), word@, min_fuzzy(self.index(), word@))[k].offset,
                        fuzzy_matches(self.index(), word@, min_fuzzy(self.index(), word@))[k].offset
                            + fuzzy_matches(
                            self.index(),
                            word@,
                            min_fuzzy(self.index(), word@),
                        )[k].length,
                    )
                &&& forall|i: int|
                    0 <= i < self.index().len() ==> min_fuzzy(self.index(), word@) <= fuzzy_dist(
                        word@,
                        (#[trigger] self.index()[i]).word,
                    )
            },
            (r is NotFound) <==> !has_ci_match(self.index(), word@) && (!enable_fuzzy
                || self.index().len() == 0),
    {
        match self.stardict.exact_look_up(word) {
            Some(found) => LookUpResult::Exact(
                LookUpResultItem::new(found.word, found.translation),
            ),
            None => {
                if enable_fuzzy {
                    match self.stardict.fuzzy_look_up(word) {
                        Some(entries) => {
                            let mut items: Vec<LookUpResultItem> = Vec::new();
                            let mut entries = entries;
                            let ghost orig = entries@;
                            let n = entries.len();
                            let mut done: usize = 0;
                            while done < n
                                invariant
                                    done <= n,
                                    done + entries@.len() == n,
                                    n == orig.len(),
                                    entries@ == orig.skip(done as int),
                                    items@.len() == done,
                                    forall|k: int|
                                        0 <= k < done ==> (#[trigger] items@[k]).word@
                                            == orig[k].word@ && items@[k].translation@
                                            == orig[k].translation@,
                                decreases n - done,
                            {
                                proof {
                                    assert(orig.skip(done as int)[0] == orig[done as int]);
                                    assert(orig.skip(done as int).drop_first() =~= orig.skip(
                                        done + 1,
                                    ));
                                }
                                let e = entries.remove(0);
                                items.push(LookUpResultItem::new(e.word, e.translation));
                                done = done + 1;
                            }
                            LookUpResult::Fuzzy(items)
                        },
                        None => LookUpResult::NotFound,
                    }
                } else {
                    LookUpResult::NotFound
                }
            },
        }
    }
}

impl Dict for OfflineDict {
    fn name(&self) -> &str {
        self.name.as_str()
    }

    fn type_(&self) -> DictType {
        DictType::StarDict
    }

    fn supports_fuzzy_search(&self) -> bool {
        true
    }

    fn look_up(&self, enable_fuzzy: bool, word: &str) -> LookUpResult {
        self.query(enable_fuzzy, word)
    }

    fn word_count(&self) -> Option<usize> {
        Some(self.stardict.word_count())
    }
}

} // verus!
