//! The dictionary engine: metadata, sorted index and payload composed
//! into one queryable, immutable unit.  Construction decodes and checks
//! everything; lookups are total and never fail, answering absence with
//! an empty result.

use vstd::prelude::*;
use vstd::string::StrSliceExecFns;
use vstd::utf8::{encode_utf8, is_char_boundary};

use crate::error::Error;
use crate::edit_distance::edit_distance;
use crate::index::{entry_coherent, int_width, key_le, key_lt, lemma_key_le_lower,
    lemma_key_le_lt_trans, lemma_key_lt_le_trans, lemma_key_trichotomy, models_of, parse_records,
    sorted_by_key, EntryModel, IndexEntry};
use crate::metadata::{meta_spec, MetaModel, Metadata};
use crate::payload::{decoded_of, plain_of, PayloadStore};
use crate::text::{chars_lt, chars_to_vec, lemma_chars_le_lt_trans,
    lemma_chars_lt_le_trans, lemma_chars_trichotomy, lower_of, lowercase, Rel};

verus! {

/// A word entry handed back by a lookup: the headword and the payload
/// slice it points to.
pub struct Entry {
    pub word: String,
    pub trans: String,
}

/// Whether an index record's byte range lies inside the payload, on
/// character boundaries.
pub open spec fn entry_within(e: EntryModel, payload: Seq<u8>) -> bool {
    &&& 0 <= e.offset
    &&& 0 <= e.length
    &&& e.offset + e.length <= payload.len()
    &&& is_char_boundary(payload, e.offset)
    &&& is_char_boundary(payload, e.offset + e.length)
}

/// The records whose byte ranges check out; the rest are dropped
/// silently at load time.
pub open spec fn keep_within(s: Seq<EntryModel>, payload: Seq<u8>) -> Seq<EntryModel>
    decreases s.len(),
{
    if s.len() == 0 {
        Seq::empty()
    } else if entry_within(s.last(), payload) {
        keep_within(s.drop_last(), payload).push(s.last())
    } else {
        keep_within(s.drop_last(), payload)
    }
}

/// Which failure, if any, loading a dictionary from these parts runs
/// into, in the order the loader works: metadata first, then the format
/// version, then the index stream, then the payload.
pub open spec fn load_error(
    ifo: Seq<char>,
    idx: Seq<u8>,
    raw: Seq<u8>,
    compressed: bool,
) -> Option<Error> {
    match meta_spec(ifo) {
        None => Some(Error::ParseError),
        Some(m) => {
            if m.version is Unknown {
                Some(Error::UnsupportedVersion)
            } else {
                match parse_records(idx, int_width(m.version)) {
                    None => Some(Error::IoError),
                    Some(_) => {
                        if decoded_of(raw, compressed) is None {
                            Some(Error::DecodeError)
                        } else {
                            None
                        }
                    },
                }
            }
        },
    }
}

/// Every record the index stream parses to has a non-empty headword.
proof fn lemma_parse_records_nonempty(b: Seq<u8>, width: nat)
    requires
        parse_records(b, width) is Some,
    ensures
        forall|i: int|
            0 <= i < parse_records(b, width)->Some_0.len() ==> (#[trigger] parse_records(
                b,
                width,
            )->Some_0[i]).word.len() > 0,
    decreases b.len(),
{
    if b.len() != 0 {
        let k = crate::index::first_nul(b) as int;
        if k + 1 + 2 * width <= b.len() {
            lemma_parse_records_nonempty(b.skip(k + 1 + 2 * width), width);
        }
    }
}

/// The distance fuzzy lookup ranks by: the edit distance between the
/// case-folded query and the case-folded headword.
pub open spec fn fuzzy_dist(q: Seq<char>, w: Seq<char>) -> nat {
    edit_distance(lower_of(q), lower_of(w))
}

/// The least fuzzy distance any of the records achieves.
pub open spec fn min_fuzzy(s: Seq<EntryModel>, q: Seq<char>) -> nat
    decreases s.len(),
{
    if s.len() == 0 {
        0
    } else if s.len() == 1 {
        fuzzy_dist(q, s[0].word)
    } else {
        let rest = min_fuzzy(s.drop_last(), q);
        let dl = fuzzy_dist(q, s.last().word);
        if dl < rest {
            dl
        } else {
            rest
        }
    }
}

/// The records at distance `m` from the query, in index order.
pub open spec fn fuzzy_matches(s: Seq<EntryModel>, q: Seq<char>, m: nat) -> Seq<EntryModel>
    decreases s.len(),
{
    if s.len() == 0 {
        Seq::empty()
    } else if fuzzy_dist(q, s.last().word) == m {
        fuzzy_matches(s.drop_last(), q, m).push(s.last())
    } else {
        fuzzy_matches(s.drop_last(), q, m)
    }
}

/// No record beats the minimum.
pub proof fn lemma_min_fuzzy_le(s: Seq<EntryModel>, q: Seq<char>, i: int)
    requires
        0 <= i < s.len(),
    ensures
        min_fuzzy(s, q) <= fuzzy_dist(q, s[i].word),
    decreases s.len(),
{
    if s.len() > 1 && i < s.len() - 1 {
        lemma_min_fuzzy_le(s.drop_last(), q, i);
        assert(s.drop_last()[i] == s[i]);
    }
}

/// Ties are not broken: every record at the minimal distance appears
/// among the matches that fuzzy lookup returns.
pub proof fn lemma_fuzzy_matches_complete(s: Seq<EntryModel>, q: Seq<char>, m: nat, i: int)
    requires
        0 <= i < s.len(),
        fuzzy_dist(q, s[i].word) == m,
    ensures
        exists|k: int|
            0 <= k < fuzzy_matches(s, q, m).len() && fuzzy_matches(s, q, m)[k] == s[i],
    decreases s.len(),
{
    let fm = fuzzy_matches(s, q, m);
    if i == s.len() - 1 {
        assert(fm[fm.len() - 1] == s[i]);
    } else {
        lemma_fuzzy_matches_complete(s.drop_last(), q, m, i);
        let fmd = fuzzy_matches(s.drop_last(), q, m);
        let k = choose|k: int| 0 <= k < fmd.len() && fmd[k] == s.drop_last()[i];
        assert(s.drop_last()[i] == s[i]);
        assert(fm[k] == s[i]);
    }
}

/// And nothing else sneaks in: every returned match is a record of the
/// index at exactly the minimal distance.
pub proof fn lemma_fuzzy_matches_sound(s: Seq<EntryModel>, q: Seq<char>, m: nat, k: int)
    requires
        0 <= k < fuzzy_matches(s, q, m).len(),
    ensures
        fuzzy_dist(q, fuzzy_matches(s, q, m)[k].word) == m,
        exists|i: int| 0 <= i < s.len() && s[i] == fuzzy_matches(s, q, m)[k],
    decreases s.len(),
{
    let fm = fuzzy_matches(s, q, m);
    let fmd = fuzzy_matches(s.drop_last(), q, m);
    if s.len() > 0 && k < fmd.len() {
        lemma_fuzzy_matches_sound(s.drop_last(), q, m, k);
        let i = choose|i: int| 0 <= i < s.drop_last().len() && s.drop_last()[i] == fmd[k];
        assert(s[i] == fm[k]);
    } else if s.len() > 0 {
        assert(fm[k] == s[s.len() - 1]);
    }
}

/// Whether a file name ends in the given suffix.
pub open spec fn has_suffix(name: Seq<char>, suffix: Seq<char>) -> bool {
    name.len() >= suffix.len() && name.skip(name.len() - suffix.len()) == suffix
}

/// The metadata file role.
pub open spec fn is_ifo_name(name: Seq<char>) -> bool {
    has_suffix(name, ".ifo"@)
}

/// The index file role.
pub open spec fn is_idx_name(name: Seq<char>) -> bool {
    has_suffix(name, ".idx"@)
}

/// A compressed payload candidate.
pub open spec fn is_dz_name(name: Seq<char>) -> bool {
    has_suffix(name, ".dz"@)
}

/// A plain payload candidate.
pub open spec fn is_plain_dict_name(name: Seq<char>) -> bool {
    has_suffix(name, ".dict"@) && !is_dz_name(name)
}

/// Any payload candidate.
pub open spec fn is_payload_name(name: Seq<char>) -> bool {
    is_dz_name(name) || is_plain_dict_name(name)
}

/// Whether a string ends with a suffix.
fn ends_with(s: &str, suffix: &str) -> (r: bool)
    ensures
        r == has_suffix(s@, suffix@),
{
    let n = s.unicode_len();
    let m = suffix.unicode_len();
    if n < m {
        return false;
    }
    let tail = s.substring_char(n - m, n);
    assert(tail@ =~= s@.skip(n - m));
    crate::text::str_eq(tail, suffix)
}

/// Which file fills which role in a dictionary directory.
#[derive(Debug)]
pub struct SelectedFiles {
    /// Index of the metadata file in the name list.
    pub ifo: usize,
    /// Index of the index file.
    pub idx: usize,
    /// Index of the payload file.
    pub payload: usize,
    /// Whether the payload file is gzip-compressed.
    pub compressed: bool,
}

/// Choose one file per required role from a directory listing, by
/// extension: `.ifo` metadata, `.idx` index, and a payload that is either
/// a gzip-compressed `.dz` or a plain `.dict`.  For metadata and index
/// the last candidate wins; a second payload candidate is ambiguous and
/// fails, as does any missing role.
pub fn select_files(names: &Vec<String>) -> (r: Result<SelectedFiles, Error>)
    ensures
        r is Ok <==> (exists|i: int| 0 <= i < names@.len() && is_ifo_name(#[trigger] names@[i]@))
            && (exists|i: int| 0 <= i < names@.len() && is_idx_name(#[trigger] names@[i]@)) && {
            exists|i: int|
                0 <= i < names@.len() && is_payload_name(#[trigger] names@[i]@) && (forall|j: int|
                    0 <= j < names@.len() && j != i ==> !is_payload_name(#[trigger] names@[j]@))
        },
        r matches Ok(s) ==> {
            &&& s.ifo < names@.len() && is_ifo_name(names@[s.ifo as int]@)
            &&& forall|j: int| s.ifo < j < names@.len() ==> !is_ifo_name(#[trigger] names@[j]@)
            &&& s.idx < names@.len() && is_idx_name(names@[s.idx as int]@)
            &&& forall|j: int| s.idx < j < names@.len() ==> !is_idx_name(#[trigger] names@[j]@)
            &&& s.payload < names@.len() && is_payload_name(names@[s.payload as int]@)
            &&& forall|j: int|
                0 <= j < names@.len() && j != s.payload ==> !is_payload_name(
                    #[trigger] names@[j]@,
                )
            &&& s.compressed == is_dz_name(names@[s.payload as int]@)
        },
        r matches Err(e) ==> e == Error::MissingFile,
{
    let n = names.len();
    let mut ifo: Option<usize> = None;
    let mut idx: Option<usize> = None;
    let mut payload: Option<usize> = None;
    let mut payload_dup = false;
    let mut compressed = false;
    let mut i: usize = 0;
    while i < n
        invariant
            i <= n,
            n == names@.len(),
            match ifo {
                Some(k) => k < i && is_ifo_name(names@[k as int]@) && forall|j: int|
                    k < j < i ==> !is_ifo_name(#[trigger] names@[j]@),
                None => forall|j: int| 0 <= j < i ==> !is_ifo_name(#[trigger] names@[j]@),
            },
            match idx {
                Some(k) => k < i && is_idx_name(names@[k as int]@) && forall|j: int|
                    k < j < i ==> !is_idx_name(#[trigger] names@[j]@),
                None => forall|j: int| 0 <= j < i ==> !is_idx_name(#[trigger] names@[j]@),
            },
            match payload {
                Some(k) => k < i && is_payload_name(names@[k as int]@) && compressed == is_dz_name(
                    names@[k as int]@,
                ) && (!payload_dup ==> forall|j: int|
                    0 <= j < i && j != k ==> !is_payload_name(#[trigger] names@[j]@)),
                None => !payload_dup && forall|j: int|
                    0 <= j < i ==> !is_payload_name(#[trigger] names@[j]@),
            },
            payload_dup ==> exists|j1: int, j2: int|
                0 <= j1 < j2 < i && is_payload_name(#[trigger] names@[j1]@) && is_payload_name(
                    #[trigger] names@[j2]@,
                ),
        decreases n - i,
    {
        let name = names[i].as_str();
        if ends_with(name, ".ifo") {
            ifo = Some(i);
        }
        if ends_with(name, ".idx") {
            idx = Some(i);
        }
        let dz = ends_with(name, ".dz");
        let plain = ends_with(name, ".dict") && !dz;
        if dz || plain {
            if payload.is_some() {
                payload_dup = true;
            }
            payload = Some(i);
            compressed = dz;
        }
        i = i + 1;
    }
    match (ifo, idx, payload) {
        (Some(fi), Some(xi), Some(pi)) => {
            if payload_dup {
                Err(Error::MissingFile)
            } else {
                Ok(SelectedFiles { ifo: fi, idx: xi, payload: pi, compressed })
            }
        },
        _ => Err(Error::MissingFile),
    }
}

/// Compare a loaded record against a query under the load-time order.
fn cmp_key(e: &IndexEntry, word: &str, word_low: &str) -> (r: Rel)
    requires
        entry_coherent(*e),
        word_low@ == lower_of(word@),
    ensures
        r is Lt <==> key_lt(e.word@, word@),
        r is Eq <==> e.word@ == word@,
        r is Gt <==> key_lt(word@, e.word@),
{
    proof {
        lemma_key_trichotomy(e.word@, word@);
        lemma_chars_trichotomy(e.word@, word@);
        lemma_chars_trichotomy(lower_of(e.word@), lower_of(word@));
    }
    match crate::text::cmp_str(e.word_lower.as_str(), word_low) {
        Rel::Lt => Rel::Lt,
        Rel::Gt => Rel::Gt,
        Rel::Eq => crate::text::cmp_str(e.word.as_str(), word),
    }
}

/// The stardict to be looked up.
#[derive(Debug)]
pub struct StarDict {
    ifo: Metadata,
    idx: Vec<IndexEntry>,
    dict: PayloadStore,
}

impl StarDict {
    /// What construction establishes and queries rely on: the payload is
    /// materialized, every entry's range lies inside it, every cached
    /// case-folded form is honest, every headword is non-empty, and the
    /// index is sorted under the load-time order.
    #[verifier::type_invariant]
    spec fn wf(self) -> bool {
        &&& self.dict.is_materialized()
        &&& forall|i: int| 0 <= i < self.idx@.len() ==> entry_coherent(#[trigger] self.idx@[i])
        &&& forall|i: int|
            0 <= i < self.idx@.len() ==> (#[trigger] models_of(self.idx@)[i]).word.len() > 0
        &&& forall|i: int|
            0 <= i < self.idx@.len() ==> entry_within(
                #[trigger] models_of(self.idx@)[i],
                self.dict.content_bytes(),
            )
        &&& sorted_by_key(models_of(self.idx@))
    }

    /// The loaded index records, in their sorted order.
    pub closed spec fn index(&self) -> Seq<EntryModel> {
        models_of(self.idx@)
    }

    /// The bytes of the materialized payload, which the records' offsets
    /// and lengths address.
    pub closed spec fn payload_bytes(&self) -> Seq<u8> {
        self.dict.content_bytes()
    }

    /// The parsed metadata record.
    pub closed spec fn meta(&self) -> MetaModel {
        self.ifo@
    }

    /// The byte range of an index record, as a slice of the payload.
    pub open spec fn translation_of(&self, i: int) -> Seq<u8> {
        self.payload_bytes().subrange(
            self.index()[i].offset,
            self.index()[i].offset + self.index()[i].length,
        )
    }

    /// Load a dictionary from the contents of its three files.  The index
    /// need not arrive sorted: it is sorted here, so that the binary
    /// search of exact lookup is valid by construction.  Records whose
    /// byte ranges do not fit the decoded payload are dropped silently.
    pub fn new(
        ifo_text: &str,
        idx_bytes: &Vec<u8>,
        dict_bytes: Vec<u8>,
        dict_compressed: bool,
    ) -> (r: Result<StarDict, Error>)
        ensures
            r is Ok <==> load_error(ifo_text@, idx_bytes@, dict_bytes@, dict_compressed) is None,
            r matches Err(e) ==> Some(e) == load_error(
                ifo_text@,
                idx_bytes@,
                dict_bytes@,
                dict_compressed,
            ),
            r matches Ok(d) ==> {
                &&& Some(d.meta()) == meta_spec(ifo_text@)
                &&& !(d.meta().version is Unknown)
                &&& Some(d.payload_bytes()) == plain_of(dict_bytes@, dict_compressed)
                &&& parse_records(idx_bytes@, int_width(d.meta().version)) is Some
                &&& d.index().to_multiset() == keep_within(
                    parse_records(idx_bytes@, int_width(d.meta().version))->Some_0,
                    d.payload_bytes(),
                ).to_multiset()
                &&& sorted_by_key(d.index())
                &&& forall|i: int|
                    0 <= i < d.index().len() ==> entry_within(
                        #[trigger] d.index()[i],
                        d.payload_bytes(),
                    )
                &&& forall|i: int|
                    0 <= i < d.index().len() ==> (#[trigger] d.index()[i]).word.len() > 0
            },
    {
        let ghost rawb = dict_bytes@;
        let meta = match Metadata::new(ifo_text) {
            Ok(m) => m,
            Err(e) => {
                return Err(e);
            },
        };
        let version = meta.version();
        let raw_entries = match crate::index::parse_index(idx_bytes, version) {
            Ok(v) => v,
            Err(e) => {
                return Err(e);
            },
        };
        let ghost w = int_width(version);
        let ghost raw_models = models_of(raw_entries@);
        proof {
            lemma_parse_records_nonempty(idx_bytes@, w);
            assert(raw_models == parse_records(idx_bytes@, w)->Some_0);
            assert forall|i: int| 0 <= i < raw_models.len() implies (#[trigger] raw_models[i]).word.len()
                > 0 by {
                assert(raw_models[i] == parse_records(idx_bytes@, w)->Some_0[i]);
            }
        }
        let mut store = PayloadStore::new(dict_bytes, dict_compressed);
        match store.materialize() {
            Ok(_) => {},
            Err(e) => {
                return Err(e);
            },
        };
        let ghost pb = store.content_bytes();
        let plen = store.byte_len();

        let mut input = raw_entries;
        let mut kept: Vec<IndexEntry> = Vec::new();
        let mut done: usize = 0;
        let n = input.len();
        proof {
            assert(raw_models.skip(0) =~= raw_models);
            assert(raw_models.take(0) =~= Seq::<EntryModel>::empty());
            assert(models_of(kept@) =~= Seq::<EntryModel>::empty());
        }
        while done < n
            invariant
                done <= n,
                done + input@.len() == n,
                n == raw_models.len(),
                models_of(input@) == raw_models.skip(done as int),
                models_of(kept@) == keep_within(raw_models.take(done as int), pb),
                pb == store.content_bytes(),
                store.is_materialized(),
                plen == pb.len(),
                forall|i: int| 0 <= i < input@.len() ==> entry_coherent(#[trigger] input@[i]),
                forall|i: int| 0 <= i < kept@.len() ==> entry_coherent(#[trigger] kept@[i]),
                forall|i: int|
                    0 <= i < kept@.len() ==> entry_within(
                        #[trigger] models_of(kept@)[i],
                        pb,
                    ),
                forall|i: int|
                    0 <= i < kept@.len() ==> (#[trigger] models_of(kept@)[i]).word.len() > 0,
                forall|i: int|
                    0 <= i < raw_models.len() ==> (#[trigger] raw_models[i]).word.len() > 0,
            decreases n - done,
        {
            let ghost old_input = input@;
            let ghost old_kept = kept@;
            let e = input.remove(0);
            proof {
                assert(models_of(input@) =~= models_of(old_input).drop_first());
                assert(models_of(old_input).drop_first() =~= raw_models.skip(done + 1));
                assert(models_of(old_input)[0] == old_input[0]@);
                assert(raw_models.skip(done as int)[0] == raw_models[done as int]);
                assert(e@ == raw_models[done as int]);
                assert forall|i: int| 0 <= i < input@.len() implies entry_coherent(
                    #[trigger] input@[i],
                ) by {
                    assert(input@[i] == old_input[i + 1]);
                }
                assert(raw_models.take(done + 1).drop_last() =~= raw_models.take(done as int));
                assert(raw_models.take(done + 1).last() == raw_models[done as int]);
            }
            let off = e.offset;
            let len = e.length;
            let fits = off <= plen as u64 && len <= plen as u64 - off;
            let ok = if fits {
                proof {
                    assert(off as int <= plen);
                    assert(off as int + len as int <= plen);
                }
                let off_us = off as usize;
                let end_us = (off + len) as usize;
                store.boundary_at(off_us) && store.boundary_at(end_us)
            } else {
                false
            };
            proof {
                assert(ok == entry_within(e@, pb));
            }
            if ok {
                kept.push(e);
                proof {
                    assert(models_of(kept@) =~= models_of(old_kept).push(
                        raw_models[done as int],
                    ));
                }
            }
            done = done + 1;
        }
        proof {
            assert(raw_models.take(n as int) =~= raw_models);
        }
        let sorted = crate::index::sort_entries(kept);
        proof {
            // transfer the per-entry facts across the sorting permutation
            let ms = models_of(sorted@);
            let mk = keep_within(raw_models, pb);
            assert forall|i: int| 0 <= i < ms.len() implies entry_within(#[trigger] ms[i], pb)
                && ms[i].word.len() > 0 by {
                let m = ms[i];
                ms.to_multiset_ensures();
                mk.to_multiset_ensures();
                assert(ms.contains(m));
                assert(ms.to_multiset().count(m) > 0);
                assert(mk.to_multiset().count(m) > 0);
                assert(mk.contains(m));
                let j = choose|j: int| 0 <= j < mk.len() && mk[j] == m;
                assert(entry_within(mk[j], pb) && mk[j].word.len() > 0);
            }
        }
        Ok(StarDict { ifo: meta, idx: sorted, dict: store })
    }

    /// Binary search for a record whose headword equals the query exactly
    /// (and hence also case-insensitively).
    fn find_exact(&self, word: &str, word_low: &str) -> (r: Option<usize>)
        requires
            word_low@ == lower_of(word@),
        ensures
            match r {
                Some(i) => i < self.index().len() && (#[trigger] self.index()[i as int]).word
                    == word@,
                None => forall|i: int|
                    0 <= i < self.index().len() ==> (#[trigger] self.index()[i]).word != word@,
            },
    {
        let n = self.idx.len();
        let mut lo: usize = 0;
        let mut hi: usize = n;
        while lo < hi
            invariant
                lo <= hi <= n,
                n == self.idx@.len(),
                word_low@ == lower_of(word@),
                forall|k: int| 0 <= k < lo ==> key_lt((#[trigger] self.index()[k]).word, word@),
                forall|k: int| hi <= k < n ==> key_lt(word@, (#[trigger] self.index()[k]).word),
            decreases hi - lo,
        {
            proof {
                use_type_invariant(self);
            }
            let mid = lo + (hi - lo) / 2;
            let e = &self.idx[mid];
            proof {
                assert(self.index()[mid as int] == self.idx@[mid as int]@);
            }
            match cmp_key(e, word, word_low) {
                Rel::Eq => {
                    return Some(mid);
                },
                Rel::Lt => {
                    proof {
                        assert forall|k: int| 0 <= k < mid + 1 implies key_lt(
                            (#[trigger] self.index()[k]).word,
                            word@,
                        ) by {
                            if k < mid {
                                assert(key_le(self.index()[k].word, self.index()[mid as int].word));
                                lemma_key_le_lt_trans(
                                    self.index()[k].word,
                                    self.index()[mid as int].word,
                                    word@,
                                );
                            }
                        }
                    }
                    lo = mid + 1;
                },
                Rel::Gt => {
                    proof {
                        assert forall|k: int| mid <= k < n implies key_lt(
                            word@,
                            (#[trigger] self.index()[k]).word,
                        ) by {
                            if k > mid {
                                assert(key_le(self.index()[mid as int].word, self.index()[k].word));
                                lemma_key_lt_le_trans(
                                    word@,
                                    self.index()[mid as int].word,
                                    self.index()[k].word,
                                );
                            }
                        }
                    }
                    hi = mid;
                },
            }
        }
        proof {
            assert forall|i: int| 0 <= i < n implies (#[trigger] self.index()[i]).word
                != word@ by {
                lemma_key_trichotomy(self.index()[i].word, word@);
                lemma_key_trichotomy(word@, self.index()[i].word);
            }
        }
        None
    }

    /// Binary search for any record whose headword equals the query
    /// case-insensitively.
    fn find_ci(&self, word_low: &str) -> (r: Option<usize>)
        ensures
            match r {
                Some(i) => i < self.index().len() && lower_of(
                    (#[trigger] self.index()[i as int]).word,
                ) == word_low@,
                None => forall|i: int|
                    0 <= i < self.index().len() ==> lower_of((#[trigger] self.index()[i]).word)
                        != word_low@,
            },
    {
        let n = self.idx.len();
        let mut lo: usize = 0;
        let mut hi: usize = n;
        while lo < hi
            invariant
                lo <= hi <= n,
                n == self.idx@.len(),
                forall|k: int|
                    0 <= k < lo ==> chars_lt(lower_of((#[trigger] self.index()[k]).word), word_low@),
                forall|k: int|
                    hi <= k < n ==> chars_lt(word_low@, lower_of((#[trigger] self.index()[k]).word)),
            decreases hi - lo,
        {
            proof {
                use_type_invariant(self);
            }
            let mid = lo + (hi - lo) / 2;
            let e = &self.idx[mid];
            proof {
                assert(self.index()[mid as int] == self.idx@[mid as int]@);
                assert(entry_coherent(self.idx@[mid as int]));
            }
            match crate::text::cmp_str(e.word_lower.as_str(), word_low) {
                Rel::Eq => {
                    return Some(mid);
                },
                Rel::Lt => {
                    proof {
                        assert forall|k: int| 0 <= k < mid + 1 implies chars_lt(
                            lower_of((#[trigger] self.index()[k]).word),
                            word_low@,
                        ) by {
                            if k < mid {
                                assert(key_le(self.index()[k].word, self.index()[mid as int].word));
                                lemma_key_le_lower(
                                    self.index()[k].word,
                                    self.index()[mid as int].word,
                                );
                                lemma_chars_le_lt_trans(
                                    lower_of(self.index()[k].word),
                                    lower_of(self.index()[mid as int].word),
                                    word_low@,
                                );
                            }
                        }
                    }
                    lo = mid + 1;
                },
                Rel::Gt => {
                    proof {
                        assert forall|k: int| mid <= k < n implies chars_lt(
                            word_low@,
                            lower_of((#[trigger] self.index()[k]).word),
                        ) by {
                            if k > mid {
                                assert(key_le(self.index()[mid as int].word, self.index()[k].word));
                                lemma_key_le_lower(
                                    self.index()[mid as int].word,
                                    self.index()[k].word,
                                );
                                lemma_chars_lt_le_trans(
                                    word_low@,
                                    lower_of(self.index()[mid as int].word),
                                    lower_of(self.index()[k].word),
                                );
                            }
                        }
                    }
                    hi = mid;
                },
            }
        }
        proof {
            assert forall|i: int| 0 <= i < n implies lower_of((#[trigger] self.index()[i]).word)
                != word_low@ by {
                lemma_chars_trichotomy(lower_of(self.index()[i].word), word_low@);
                lemma_chars_trichotomy(word_low@, lower_of(self.index()[i].word));
            }
        }
        None
    }

    /// Build the returned entry for the record at a given position.
    fn entry_at(&self, i: usize) -> (r: Entry)
        requires
            i < self.index().len(),
        ensures
            r.word@ == self.index()[i as int].word,
            encode_utf8(r.trans@) == self.translation_of(i as int),
    {
        proof {
            use_type_invariant(self);
            assert(self.index()[i as int] == self.idx@[i as int]@);
            assert(entry_within(self.index()[i as int], self.payload_bytes()));
        }
        let e = &self.idx[i];
        let plen = self.dict.byte_len();
        proof {
            assert(e.offset as int + e.length as int <= plen as int);
        }
        let off = e.offset as usize;
        let ln = e.length as usize;
        let trans = self.dict.slice(off, ln);
        Entry { word: e.word.clone(), trans }
    }

    /// Look up a word with fuzzy searching disabled: a binary search over
    /// the sorted index under case-insensitive comparison with the
    /// case-sensitive tie-break.  Absence is a normal outcome, not an
    /// error.  A result is owed exactly when some record's headword
    /// equals the query case-insensitively; an exactly equal headword is
    /// preferred when one exists.
    pub fn exact_lookup(&self, word: &str) -> (r: Option<Entry>)
        ensures
            r is Some <==> exists|i: int|
                0 <= i < self.index().len() && lower_of((#[trigger] self.index()[i]).word)
                    == lower_of(word@),
            r matches Some(e) ==> {
                &&& lower_of(e.word@) == lower_of(word@)
                &&& exists|i: int|
                    0 <= i < self.index().len() && (#[trigger] self.index()[i]).word == e.word@
                        && encode_utf8(e.trans@) == self.translation_of(i)
                &&& (exists|i: int|
                    0 <= i < self.index().len() && (#[trigger] self.index()[i]).word == word@)
                    ==> e.word@ == word@
            },
    {
        let wl = lowercase(word);
        let pos = match self.find_exact(word, wl.as_str()) {
            Some(i) => Some(i),
            None => self.find_ci(wl.as_str()),
        };
        match pos {
            Some(i) => {
                let e = self.entry_at(i);
                proof {
                    assert(lower_of(self.index()[i as int].word) == lower_of(word@));
                }
                Some(e)
            },
            None => None,
        }
    }

    /// Look up a word with fuzzy searching enabled: compute the edit
    /// distance between the case-folded query and every case-folded
    /// headword, and return every record achieving the global minimum,
    /// ties unbroken, in index order.  Raw distances are used over full
    /// headwords, with no cutoff.  Only a dictionary with no records at
    /// all returns nothing.
    pub fn fuzzy_lookup(&self, word: &str) -> (r: Option<Vec<Entry>>)
        ensures
            r is Some <==> self.index().len() > 0,
            r matches Some(v) ==> {
                &&& forall|i: int|
                    0 <= i < self.index().len() ==> min_fuzzy(self.index(), word@) <= fuzzy_dist(
                        word@,
                        (#[trigger] self.index()[i]).word,
                    )
                &&& v@.len() == fuzzy_matches(
                    self.index(),
                    word@,
                    min_fuzzy(self.index(), word@),
                ).len()
                &&& v@.len() >= 1
                &&& forall|k: int|
                    0 <= k < v@.len() ==> (#[trigger] v@[k]).word@ == fuzzy_matches(
                        self.index(),
                        word@,
                        min_fuzzy(self.index(), word@),
                    )[k].word
                &&& forall|k: int|
                    0 <= k < v@.len() ==> encode_utf8((#[trigger] v@[k]).trans@)
                        == self.payload_bytes().subrange(
                        fuzzy_matches(self.index(), word@, min_fuzzy(self.index(), word@))[k].offset,
                        fuzzy_matches(self.index(), word@, min_fuzzy(self.index(), word@))[k].offset
                            + fuzzy_matches(
                            self.index(),
                            word@,
                            min_fuzzy(self.index(), word@),
                        )[k].length,
                    )
            },
    {
        let n = self.idx.len();
        if n == 0 {
            return None;
        }
        let wl = lowercase(word);
        let q_chars = chars_to_vec(wl.as_str());
        let mut dists: Vec<usize> = Vec::new();
        let mut best: usize = 0;
        let mut best_at: usize = 0;
        let mut i: usize = 0;
        while i < n
            invariant
                i <= n,
                n == self.idx@.len(),
                q_chars@ == lower_of(word@),
                dists@.len() == i,
                forall|k: int|
                    0 <= k < i ==> dists@[k] == fuzzy_dist(word@, (#[trigger] self.index()[k]).word),
                i > 0 ==> best == min_fuzzy(self.index().take(i as int), word@),
                i > 0 ==> best_at < i && fuzzy_dist(word@, self.index()[best_at as int].word)
                    == best,
            decreases n - i,
        {
            proof {
                use_type_invariant(self);
            }
            let e = &self.idx[i];
            proof {
                assert(self.index()[i as int] == self.idx@[i as int]@);
                assert(entry_coherent(self.idx@[i as int]));
            }
            let el_chars = chars_to_vec(e.word_lower.as_str());
            let d = crate::edit_distance::levenshtein(&q_chars, &el_chars);
            proof {
                assert(d == fuzzy_dist(word@, self.index()[i as int].word));
                let t1 = self.index().take(i + 1);
                assert(t1.drop_last() =~= self.index().take(i as int));
                assert(t1.last() == self.index()[i as int]);
            }
            if i == 0 || d < best {
                best = d;
                best_at = i;
            }
            dists.push(d);
            i = i + 1;
        }
        proof {
            assert(self.index().take(n as int) =~= self.index());
        }

        let ghost m = min_fuzzy(self.index(), word@);
        let ghost fm = fuzzy_matches(self.index(), word@, m);
        let mut out: Vec<Entry> = Vec::new();
        let mut i: usize = 0;
        proof {
            assert(fuzzy_matches(self.index().take(0), word@, m) =~= Seq::<EntryModel>::empty());
            assert(self.index().take(0) =~= Seq::<EntryModel>::empty());
        }
        while i < n
            invariant
                i <= n,
                n == self.idx@.len(),
                best as nat == m,
                dists@.len() == n,
                forall|k: int|
                    0 <= k < n ==> dists@[k] == fuzzy_dist(word@, (#[trigger] self.index()[k]).word),
                out@.len() == fuzzy_matches(self.index().take(i as int), word@, m).len(),
                forall|k: int|
                    0 <= k < out@.len() ==> (#[trigger] out@[k]).word@ == fuzzy_matches(
                        self.index().take(i as int),
                        word@,
                        m,
                    )[k].word,
                forall|k: int|
                    0 <= k < out@.len() ==> encode_utf8((#[trigger] out@[k]).trans@)
                        == self.payload_bytes().subrange(
                        fuzzy_matches(self.index().take(i as int), word@, m)[k].offset,
                        fuzzy_matches(self.index().take(i as int), word@, m)[k].offset
                            + fuzzy_matches(self.index().take(i as int), word@, m)[k].length,
                    ),
            decreases n - i,
        {
            let ghost t0 = fuzzy_matches(self.index().take(i as int), word@, m);
            proof {
                let t1s = self.index().take(i + 1);
                assert(t1s.drop_last() =~= self.index().take(i as int));
                assert(t1s.last() == self.index()[i as int]);
            }
            if dists[i] == best {
                let e = self.entry_at(i);
                out.push(e);
                proof {
                    let t1 = fuzzy_matches(self.index().take(i + 1), word@, m);
                    assert(t1 =~= t0.push(self.index()[i as int]));
                }
            }
            i = i + 1;
        }
        proof {
            assert(self.index().take(n as int) =~= self.index());
            assert forall|i: int| 0 <= i < self.index().len() implies m <= fuzzy_dist(
                word@,
                (#[trigger] self.index()[i]).word,
            ) by {
                lemma_min_fuzzy_le(self.index(), word@, i);
            }
            lemma_fuzzy_matches_complete(self.index(), word@, m, best_at as int);
        }
        Some(out)
    }

    /// The name of the stardict.
    pub fn dict_name(&self) -> (r: &str)
        ensures
            r@ == self.meta().bookname,
    {
        self.ifo.bookname.as_str()
    }

    /// The number of words the metadata declares.  Entries that survived
    /// loading may be fewer; both numbers are legitimate.
    pub fn wordcount(&self) -> (r: usize)
        ensures
            r as int == self.meta().wordcount,
    {
        self.ifo.wordcount
    }

    /// The number of records that survived loading.
    pub fn loaded_entry_count(&self) -> (r: usize)
        ensures
            r == self.index().len(),
    {
        self.idx.len()
    }
}

} // verus!
