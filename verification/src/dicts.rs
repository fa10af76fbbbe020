//! The dictionary manager: a set of loaded offline dictionaries behind
//! one query, with the options that a query prefix can override.  The
//! manager fans an exact query out across all dictionaries and falls
//! back to the first dictionary's fuzzy candidates; wiring in online and
//! model-backed sources, and every piece of I/O, belongs to the
//! surrounding application.

use vstd::prelude::*;
use vstd::string::StrSliceExecFns;
use vstd::utf8::encode_utf8;

use crate::dict::offline::{has_ci_match, OfflineDict};
use crate::dict::LookUpResult;
use crate::stardict::{fuzzy_matches, min_fuzzy};
use crate::text::{is_alphanumeric_char, lower_of};

verus! {

/// How a query is answered: which sources are preferred and whether
/// fuzzy search may run.
#[derive(Clone, Copy, Debug)]
pub struct DictOptions {
    pub prioritize_online_dict: bool,
    pub prioritize_offline_dicts: bool,
    pub use_llm_dicts: bool,
    pub exact_match_only: bool,
    pub read_aloud: bool,
}

impl Default for DictOptions {
    /// Offline first, fuzzy search allowed, nothing else switched on.
    fn default() -> (r: Self)
        ensures
            !r.prioritize_online_dict,
            r.prioritize_offline_dicts,
            !r.use_llm_dicts,
            !r.exact_match_only,
            !r.read_aloud,
    {
        Self {
            prioritize_online_dict: false,
            prioritize_offline_dicts: true,
            use_llm_dicts: false,
            exact_match_only: false,
            read_aloud: false,
        }
    }
}

/// The position of the first alphanumeric character, or the length when
/// there is none.
pub open spec fn first_alnum(s: Seq<char>) -> nat
    decreases s.len(),
{
    if s.len() == 0 {
        0
    } else if is_alphanumeric_char(s[0]) {
        0
    } else {
        1 + first_alnum(s.drop_first())
    }
}

proof fn lemma_first_alnum_le(s: Seq<char>)
    ensures
        first_alnum(s) <= s.len(),
    decreases s.len(),
{
    if s.len() > 0 && !is_alphanumeric_char(s[0]) {
        lemma_first_alnum_le(s.drop_first());
    }
}

proof fn lemma_first_alnum_at(s: Seq<char>, k: int)
    requires
        0 <= k <= s.len(),
        forall|j: int| 0 <= j < k ==> !is_alphanumeric_char(s[j]),
        k < s.len() ==> is_alphanumeric_char(s[k]),
    ensures
        first_alnum(s) == k,
    decreases k,
{
    if s.len() == 0 {
    } else if k == 0 {
    } else {
        let rest = s.drop_first();
        assert(forall|j: int| 0 <= j < k - 1 ==> rest[j] == s[j + 1]);
        assert(k - 1 < rest.len() ==> rest[k - 1] == s[k as int]);
        lemma_first_alnum_at(rest, k - 1);
    }
}

/// Split a word into its non-alphanumeric prefix and the rest.
pub fn split_non_alphanumeric_prefix(s: &str) -> (r: (&str, &str))
    ensures
        r.0@ == s@.take(first_alnum(s@) as int),
        r.1@ == s@.skip(first_alnum(s@) as int),
{
    let n = s.unicode_len();
    let mut k: usize = 0;
    while k < n
        invariant_except_break
            k <= n,
            n == s@.len(),
            forall|j: int| 0 <= j < k ==> !is_alphanumeric_char(s@[j]),
        ensures
            k <= n,
            forall|j: int| 0 <= j < k ==> !is_alphanumeric_char(s@[j]),
            k < n ==> is_alphanumeric_char(s@[k as int]),
        decreases n - k,
    {
        if crate::text::char_is_alphanumeric(s.get_char(k)) {
            break;
        }
        k = k + 1;
    }
    proof {
        lemma_first_alnum_at(s@, k as int);
    }
    let head = s.substring_char(0, k);
    let tail = s.substring_char(k, n);
    (head, tail)
}

/// Whether a character occurs in a sequence.
pub open spec fn has_char(s: Seq<char>, c: char) -> bool {
    exists|i: int| 0 <= i < s.len() && s[i] == c
}

/// Whether a string holds a given character.
fn contains_char(s: &str, c: char) -> (r: bool)
    ensures
        r == has_char(s@, c),
{
    let n = s.unicode_len();
    let mut i: usize = 0;
    while i < n
        invariant
            i <= n,
            n == s@.len(),
            forall|j: int| 0 <= j < i ==> s@[j] != c,
        decreases n - i,
    {
        if s.get_char(i) == c {
            return true;
        }
        i = i + 1;
    }
    false
}

impl DictOptions {
    /// Read the option markers off a word's non-alphanumeric prefix:
    /// `@` prefers the online source, `|` restricts to exact matches
    /// (`//` picks fuzzy search, the default), `%` brings in the
    /// model-backed sources, `~` asks for pronunciation.  A word without
    /// such a prefix changes nothing.
    pub fn parse_prefixed_word(word: &str) -> (r: (Option<DictOptions>, String))
        ensures
            r.1@ == word@.skip(first_alnum(word@) as int),
            first_alnum(word@) == 0 ==> r.0 is None,
            first_alnum(word@) != 0 ==> (r.0 matches Some(o) && {
                let prefix = word@.take(first_alnum(word@) as int);
                &&& o.prioritize_online_dict == has_char(prefix, '@')
                &&& o.prioritize_offline_dicts
                &&& o.use_llm_dicts == has_char(prefix, '%')
                &&& o.exact_match_only == has_char(prefix, '|')
                &&& o.read_aloud == has_char(prefix, '~')
            }),
    {
        let (prefix, rest) = split_non_alphanumeric_prefix(word);
        proof {
            lemma_first_alnum_le(word@);
            assert(prefix@.len() == first_alnum(word@));
        }
        if prefix.is_empty() {
            (None, rest.to_owned())
        } else {
            let mut options = Self::default();
            if contains_char(prefix, '@') {
                options.prioritize_online_dict = true;
            }
            if contains_char(prefix, '|') {
                options.exact_match_only = true;
            }
            if contains_char(prefix, '%') {
                options.use_llm_dicts = true;
            }
            if contains_char(prefix, '~') {
                options.read_aloud = true;
            }
            (Some(options), rest.to_owned())
        }
    }

    pub fn prioritize_online(self, prioritize: bool) -> (r: Self)
        ensures
            r == (DictOptions { prioritize_online_dict: prioritize, ..self }),
    {
        let mut s = self;
        s.prioritize_online_dict = prioritize;
        s
    }

    pub fn prioritize_offline(self, prioritize: bool) -> (r: Self)
        ensures
            r == (DictOptions { prioritize_offline_dicts: prioritize, ..self }),
    {
        let mut s = self;
        s.prioritize_offline_dicts = prioritize;
        s
    }

    pub fn use_llm_dicts(self, use_llm: bool) -> (r: Self)
        ensures
            r == (DictOptions { use_llm_dicts: use_llm, ..self }),
    {
        let mut s = self;
        s.use_llm_dicts = use_llm;
        s
    }

    pub fn require_exact_match(self, exact: bool) -> (r: Self)
        ensures
            r == (DictOptions { exact_match_only: exact, ..self }),
    {
        let mut s = self;
        s.exact_match_only = exact;
        s
    }

    pub fn read_aloud(self, read_aloud: bool) -> (r: Self)
        ensures
            r == (DictOptions { read_aloud: read_aloud, ..self }),
    {
        let mut s = self;
        s.read_aloud = read_aloud;
        s
    }
}

/// The loaded offline dictionaries, with the options queries start from.
pub struct DictManager {
    options: DictOptions,
    offline_dicts: Vec<OfflineDict>,
}

impl DictManager {
    /// The managed dictionaries, in their lookup order.
    pub closed spec fn dicts(&self) -> Seq<OfflineDict> {
        self.offline_dicts@
    }

    /// The options queries start from.
    pub closed spec fn options_spec(&self) -> DictOptions {
        self.options
    }

    /// Take charge of a set of loaded dictionaries.
    pub fn new(offline_dicts: Vec<OfflineDict>, options: DictOptions) -> (r: DictManager)
        ensures
            r.dicts() == offline_dicts@,
            r.options_spec() == options,
    {
        DictManager { options, offline_dicts }
    }

    /// How many dictionaries are loaded.
    pub fn dict_count(&self) -> (r: usize)
        ensures
            r == self.dicts().len(),
    {
        self.offline_dicts.len()
    }

    /// The dictionary at a position.
    pub fn dict_at(&self, i: usize) -> (r: &OfflineDict)
        requires
            i < self.dicts().len(),
        ensures
            *r == self.dicts()[i as int],
    {
        &self.offline_dicts[i]
    }

    /// A copy of the starting options.
    pub fn options(&self) -> (r: DictOptions)
        ensures
            r == self.options_spec(),
    {
        self.options
    }

    /// Answer a query from the local dictionaries: the first dictionary
    /// with a case-insensitive match answers exactly; with fuzzy search
    /// enabled and no exact match anywhere, the first dictionary with
    /// records at all answers with its minimal-distance candidates.
    pub fn look_up_offline(&self, enable_fuzzy: bool, word: &str) -> (r: LookUpResult)
        ensures
            (r is Exact) <==> exists|di: int|
                0 <= di < self.dicts().len() && has_ci_match(
                    (#[trigger] self.dicts()[di]).index(),
                    word@,
                ),
            r matches LookUpResult::Exact(item) ==> exists|di: int|
                {
                    &&& 0 <= di < self.dicts().len()
                    &&& has_ci_match((#[trigger] self.dicts()[di]).index(), word@)
                    &&& forall|dj: int|
                        0 <= dj < di ==> !has_ci_match((#[trigger] self.dicts()[dj]).index(), word@)
                    &&& lower_of(item.word@) == lower_of(word@)
                    &&& exists|i: int|
                        0 <= i < self.dicts()[di].index().len() && (#[trigger] self.dicts()[di].index()[i]).word
                            == item.word@ && encode_utf8(item.translation@)
                            == self.dicts()[di].payload_bytes().subrange(
                            self.dicts()[di].index()[i].offset,
                            self.dicts()[di].index()[i].offset + self.dicts()[di].index()[i].length,
                        )
                },
            r matches LookUpResult::Fuzzy(items) ==> enable_fuzzy && (forall|dj: int|
                0 <= dj < self.dicts().len() ==> !has_ci_match(
                    (#[trigger] self.dicts()[dj]).index(),
                    word@,
                )) && exists|di: int|
                {
                    &&& 0 <= di < self.dicts().len()
                    &&& (#[trigger] self.dicts()[di]).index().len() > 0
                    &&& forall|dj: int| 0 <= dj < di ==> (#[trigger] self.dicts()[dj]).index().len() == 0
                    &&& items@.len() == fuzzy_matches(
                        self.dicts()[di].index(),
                        word@,
                        min_fuzzy(self.dicts()[di].index(), word@),
                    ).len()
                    &&& items@.len() >= 1
                    &&& forall|k: int|
                        0 <= k < items@.len() ==> (#[trigger] items@[k]).word@ == fuzzy_matches(
                            self.dicts()[di].index(),
                            word@,
                            min_fuzzy(self.dicts()[di].index(), word@),
                        )[k].word
                    &&& forall|k: int|
                        0 <= k < items@.len() ==> encode_utf8((#[trigger] items@[k]).translation@)
                            == self.dicts()[di].payload_bytes().subrange(
                            fuzzy_matches(
                                self.dicts()[di].index(),
                                word@,
                                min_fuzzy(self.dicts()[di].index(), word@),
                            )[k].offset,
                            fuzzy_matches(
                                self.dicts()[di].index(),
                                word@,
                                min_fuzzy(self.dicts()[di].index(), word@),
                            )[k].offset + fuzzy_matches(
                                self.dicts()[di].index(),
                                word@,
                                min_fuzzy(self.dicts()[di].index(), word@),
                            )[k].length,
                        )
                },
            (r is NotFound) <==> (forall|dj: int|
                0 <= dj < self.dicts().len() ==> !has_ci_match(
                    (#[trigger] self.dicts()[dj]).index(),
                    word@,
                )) && (!enable_fuzzy || forall|dj: int|
                0 <= dj < self.dicts().len() ==> (#[trigger] self.dicts()[dj]).index().len() == 0),
    {
        let n = self.offline_dicts.len();
        let mut di: usize = 0;
        while di < n
            invariant
                di <= n,
                n == self.dicts().len(),
                forall|dj: int|
                    0 <= dj < di ==> !has_ci_match((#[trigger] self.dicts()[dj]).index(), word@),
            decreases n - di,
        {
            match self.offline_dicts[di].query(false, word) {
                LookUpResult::Exact(item) => {
                    return LookUpResult::Exact(item);
                },
                _ => {},
            }
            di = di + 1;
        }
        if !enable_fuzzy {
            return LookUpResult::NotFound;
        }
        let mut di: usize = 0;
        while di < n
            invariant
                di <= n,
                n == self.dicts().len(),
                enable_fuzzy,
                forall|dj: int|
                    0 <= dj < n ==> !has_ci_match((#[trigger] self.dicts()[dj]).index(), word@),
                forall|dj: int| 0 <= dj < di ==> (#[trigger] self.dicts()[dj]).index().len() == 0,
            decreases n - di,
        {
            match self.offline_dicts[di].query(true, word) {
                LookUpResult::Exact(item) => {
                    proof {
                        assert(false);
                    }
                    return LookUpResult::Exact(item);
                },
                LookUpResult::Fuzzy(items) => {
                    return LookUpResult::Fuzzy(items);
                },
                LookUpResult::NotFound => {},
            }
            di = di + 1;
        }
        LookUpResult::NotFound
    }
}

} // verus!
