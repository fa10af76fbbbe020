//! The stardict engine behind the dictionary-source interface, with the
//! entry shape that interface callers expect.  All the work is done by
//! the engine in the crate root; this module restates its guarantees
//! over the renamed entries.

use vstd::prelude::*;
use vstd::utf8::encode_utf8;

use crate::error::Error;
use crate::index::{int_width, parse_records, sorted_by_key, EntryModel};
use crate::metadata::{meta_spec, MetaModel};
use crate::payload::plain_of;
use crate::stardict::{entry_within, fuzzy_dist, fuzzy_matches, keep_within, load_error, min_fuzzy};
use crate::text::lower_of;

verus! {

/// A word entry of the stardict: the headword and its translation.
pub struct DictEntry {
    pub word: String,
    pub translation: String,
}

/// The stardict to be looked up.
pub struct StarDict {
    inner: crate::stardict::StarDict,
}

impl StarDict {
    /// The loaded index records, in their sorted order.
    pub closed spec fn index(&self) -> Seq<EntryModel> {
        self.inner.index()
    }

    /// The bytes of the materialized payload.
    pub closed spec fn payload_bytes(&self) -> Seq<u8> {
        self.inner.payload_bytes()
    }

    /// The parsed metadata record.
    pub closed spec fn meta(&self) -> MetaModel {
        self.inner.meta()
    }

    /// The byte range of an index record, as a slice of the payload.
    pub open spec fn translation_of(&self, i: int) -> Seq<u8> {
        self.payload_bytes().subrange(
            self.index()[i].offset,
            self.index()[i].offset + self.index()[i].length,
        )
    }

    /// Load a stardict from the contents of its three files.
    pub fn new(
        ifo_text: &str,
        idx_bytes: &Vec<u8>,
        dict_bytes: Vec<u8>,
        dict_compressed: bool,
    ) -> (r: Result<StarDict, Error>)
        ensures
            r is Ok <==> load_error(ifo_text@, idx_bytes@, dict_bytes@, dict_compressed) is None,
            r matches Err(e) ==> Some(e) == load_error(
                ifo_text@,
                idx_bytes@,
                dict_bytes@,
                dict_compressed,
            ),
            r matches Ok(d) ==> {
                &&& Some(d.meta()) == meta_spec(ifo_text@)
                &&& Some(d.payload_bytes()) == plain_of(dict_bytes@, dict_compressed)
                &&& parse_records(idx_bytes@, int_width(d.meta().version)) is Some
                &&& d.index().to_multiset() == keep_within(
                    parse_records(idx_bytes@, int_width(d.meta().version))->Some_0,
                    d.payload_bytes(),
                ).to_multiset()
                &&& sorted_by_key(d.index())
                &&& forall|i: int|
                    0 <= i < d.index().len() ==> entry_within(
                        #[trigger] d.index()[i],
                        d.payload_bytes(),
                    )
            },
    {
        match crate::stardict::StarDict::new(ifo_text, idx_bytes, dict_bytes, dict_compressed) {
            Ok(inner) => Ok(StarDict { inner }),
            Err(e) => Err(e),
        }
    }

    /// Look up a word with fuzzy searching disabled.  A result is owed
    /// exactly when some record's headword equals the query
    /// case-insensitively; an exactly equal headword is preferred.
    pub fn exact_look_up(&self, word: &str) -> (r: Option<DictEntry>)
        ensures
            r is Some <==> exists|i: int|
                0 <= i < self.index().len() && lower_of((#[trigger] self.index()[i]).word)
                    == lower_of(word@),
            r matches Some(e) ==> {
                &&& lower_of(e.word@) == lower_of(word@)
                &&& exists|i: int|
                    0 <= i < self.index().len() && (#[trigger] self.index()[i]).word == e.word@
                        && encode_utf8(e.translation@) == self.translation_of(i)
                &&& (exists|i: int|
                    0 <= i < self.index().len() && (#[trigger] self.index()[i]).word == word@)
                    ==> e.word@ == word@
            },
    {
        let r0 = self.inner.exact_lookup(word);
        proof {
            assert(self.index() == self.inner.index());
            assert(self.payload_bytes() == self.inner.payload_bytes());
            if exists|i: int|
                0 <= i < self.inner.index().len() && lower_of(
                    (#[trigger] self.inner.index()[i]).word,
                ) == lower_of(word@) {
                let i = choose|i: int|
                    0 <= i < self.inner.index().len() && lower_of(
                        (#[trigger] self.inner.index()[i]).word,
                    ) == lower_of(word@);
                assert(0 <= i < self.index().len() && lower_of(self.index()[i].word) == lower_of(
                    word@,
                ));
            }
            if exists|i: int|
                0 <= i < self.index().len() && lower_of((#[trigger] self.index()[i]).word)
                    == lower_of(word@) {
                let i = choose|i: int|
                    0 <= i < self.index().len() && lower_of((#[trigger] self.index()[i]).word)
                        == lower_of(word@);
                assert(0 <= i < self.inner.index().len() && lower_of(self.inner.index()[i].word)
                    == lower_of(word@));
            }
            if exists|i: int|
                0 <= i < self.index().len() && (#[trigger] self.index()[i]).word == word@ {
                let i = choose|i: int|
                    0 <= i < self.index().len() && (#[trigger] self.index()[i]).word == word@;
                assert(0 <= i < self.inner.index().len() && self.inner.index()[i].word == word@);
            }
        }
        match r0 {
            Some(e) => {
                proof {
                    let i = choose|i: int|
                        0 <= i < self.inner.index().len()
                            && (#[trigger] self.inner.index()[i]).word == e.word@
                            && encode_utf8(e.trans@) == self.inner.translation_of(i);
                    assert(0 <= i < self.index().len() && self.index()[i].word == e.word@
                        && encode_utf8(e.trans@) == self.translation_of(i));
                }
                Some(DictEntry { word: e.word, translation: e.trans })
            },
            None => None,
        }
    }

    /// Look up a word with fuzzy searching enabled: every record at the
    /// least edit distance from the query, case-folded, ties unbroken.
    pub fn fuzzy_look_up(&self, word: &str) -> (r: Option<Vec<DictEntry>>)
        ensures
            r is Some <==> self.index().len() > 0,
            r matches Some(v) ==> {
                &&& forall|i: int|
                    0 <= i < self.index().len() ==> min_fuzzy(self.index(), word@) <= fuzzy_dist(
                        word@,
                        (#[trigger] self.index()[i]).word,
                    )
                &&& v@.len() == fuzzy_matches(
                    self.index(),
                    word@,
                    min_fuzzy(self.index(), word@),
                ).len()
                &&& v@.len() >= 1
                &&& forall|k: int|
                    0 <= k < v@.len() ==> (#[trigger] v@[k]).word@ == fuzzy_matches(
                        self.index(),
                        word@,
                        min_fuzzy(self.index(), word@),
                    )[k].word
                &&& forall|k: int|
                    0 <= k < v@.len() ==> encode_utf8((#[trigger] v@[k]).translation@)
                        == self.payload_bytes().subrange(
                        fuzzy_matches(self.index(), word@, min_fuzzy(self.index(), word@))[k].offset,
                        fuzzy_matches(self.index(), word@, min_fuzzy(self.index(), word@))[k].offset
                            + fuzzy_matches(
                            self.index(),
                            word@,
                            min_fuzzy(self.index(), word@),
                        )[k].length,
                    )
            },
    {
        match self.inner.fuzzy_lookup(word) {
            Some(entries) => {
                let mut out: Vec<DictEntry> = Vec::new();
                let mut entries = entries;
                let ghost orig = entries@;
                let n = entries.len();
                let mut done: usize = 0;
                while done < n
                    invariant
                        done <= n,
                        done + entries@.len() == n,
                        n == orig.len(),
                        entries@ == orig.skip(done as int),
                        out@.len() == done,
                        forall|k: int|
                            0 <= k < done ==> (#[trigger] out@[k]).word@ == orig[k].word@
                                && out@[k].translation@ == orig[k].trans@,
                    decreases n - done,
                {
                    proof {
                        assert(orig.skip(done as int)[0] == orig[done as int]);
                        assert(orig.skip(done as int).drop_first() =~= orig.skip(done + 1));
                    }
                    let e = entries.remove(0);
                    out.push(DictEntry { word: e.word, translation: e.trans });
                    done = done + 1;
                }
                Some(out)
            },
            None => None,
        }
    }

    /// The name of the stardict.
    pub fn dict_name(&self) -> (r: &str)
        ensures
            r@ == self.meta().bookname,
    {
        self.inner.dict_name()
    }

    /// The number of words the metadata declares.
    pub fn word_count(&self) -> (r: usize)
        ensures
            r as int == self.meta().wordcount,
    {
        self.inner.wordcount()
    }
}

} // verus!
