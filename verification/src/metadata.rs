//! The textual metadata file: `key=value` lines describing a dictionary.
//! Lines without `=` are skipped, unknown keys are ignored, numeric fields
//! must be decimal, and the `version` key selects the integer width used
//! later by the index reader.

use vstd::prelude::*;
use vstd::string::StrSliceExecFns;

use crate::error::Error;
use crate::text::str_eq;

verus! {

/// The on-disk format version, which fixes the width of the integers in
/// the binary index.  `Unknown` is a terminal parse failure, not a
/// degraded mode.
#[derive(Clone, Copy, Debug, PartialEq, Eq, Structural)]
pub enum Version {
    V242,
    V300,
    Unknown,
}

/// The mathematical content of a metadata record.
pub ghost struct MetaModel {
    pub version: Version,
    pub bookname: Seq<char>,
    pub wordcount: int,
    pub synwordcount: int,
    pub idxfilesize: int,
    pub idxoffsetbits: int,
    pub author: Seq<char>,
    pub email: Seq<char>,
    pub website: Seq<char>,
    pub description: Seq<char>,
    pub date: Seq<char>,
    pub sametypesequence: Seq<char>,
    pub dicttype: Seq<char>,
}

/// A decimal digit.
pub open spec fn is_dec_digit(c: char) -> bool {
    48 <= (c as int) && (c as int) <= 57
}

/// Whether every character is a decimal digit.
pub open spec fn all_dec_digits(s: Seq<char>) -> bool {
    forall|i: int| 0 <= i < s.len() ==> is_dec_digit(s[i])
}

/// The value of a digit string, most significant digit first.
pub open spec fn dec_val(s: Seq<char>) -> int
    decreases s.len(),
{
    if s.len() == 0 {
        0
    } else {
        dec_val(s.drop_last()) * 10 + ((s.last() as int) - 48)
    }
}

/// What a numeric metadata field parses to: at least one digit, digits
/// only, and a value that fits the machine.
pub open spec fn parsed_number(s: Seq<char>) -> Option<int> {
    if s.len() > 0 && all_dec_digits(s) && dec_val(s) <= usize::MAX as int {
        Some(dec_val(s))
    } else {
        None
    }
}

/// A digit string has a non-negative value.
proof fn lemma_dec_val_nonneg(s: Seq<char>)
    requires
        all_dec_digits(s),
    ensures
        dec_val(s) >= 0,
    decreases s.len(),
{
    if s.len() > 0 {
        assert(all_dec_digits(s.drop_last()));
        lemma_dec_val_nonneg(s.drop_last());
    }
}

/// Extending a digit string never shrinks its value.
proof fn lemma_dec_val_prefix_le(s: Seq<char>, i: int)
    requires
        all_dec_digits(s),
        0 <= i <= s.len(),
    ensures
        dec_val(s.take(i)) <= dec_val(s),
    decreases s.len() - i,
{
    if i < s.len() {
        assert(s.take(i + 1).drop_last() =~= s.take(i));
        assert(s.take(i + 1).last() == s[i]);
        assert(all_dec_digits(s.take(i)));
        lemma_dec_val_nonneg(s.take(i));
        assert(dec_val(s.take(i)) <= dec_val(s.take(i + 1)));
        lemma_dec_val_prefix_le(s, i + 1);
        assert(s.take(s.len() as int) =~= s);
    } else {
        assert(s.take(i) =~= s);
    }
}

/// Parse a decimal number the way the numeric metadata fields demand.
pub fn parse_usize(s: &str) -> (r: Option<usize>)
    ensures
        match r {
            Some(v) => parsed_number(s@) == Some(v as int),
            None => parsed_number(s@) is None,
        },
{
    let n = s.unicode_len();
    if n == 0 {
        return None;
    }
    let mut acc: usize = 0;
    let mut i: usize = 0;
    while i < n
        invariant
            i <= n,
            n == s@.len(),
            all_dec_digits(s@.take(i as int)),
            acc as int == dec_val(s@.take(i as int)),
        decreases n - i,
    {
        let c = s.get_char(i);
        let cv = c as u32;
        if cv < 48 || cv > 57 {
            assert(!is_dec_digit(s@[i as int]));
            return None;
        }
        let d: usize = (cv - 48) as usize;
        proof {
            assert(s@.take(i + 1).drop_last() =~= s@.take(i as int));
            assert(s@.take(i + 1).last() == s@[i as int]);
            assert(all_dec_digits(s@.take(i + 1)));
        }
        let step = match acc.checked_mul(10) {
            Some(t) => t.checked_add(d),
            None => None,
        };
        match step {
            Some(v) => {
                acc = v;
            },
            None => {
                proof {
                    lemma_dec_val_nonneg(s@.take(i as int));
                    if all_dec_digits(s@) {
                        lemma_dec_val_prefix_le(s@, i + 1);
                        assert(dec_val(s@) > usize::MAX as int);
                    }
                }
                return None;
            },
        }
        i = i + 1;
    }
    assert(s@.take(n as int) =~= s@);
    Some(acc)
}

/// Splitting a `key=value` line at its first `=`: `None` when the line
/// holds no `=` at all.
pub open spec fn eq_split(line: Seq<char>) -> Option<(Seq<char>, Seq<char>)>
    decreases line.len(),
{
    if line.len() == 0 {
        None
    } else if line[0] == '=' {
        Some((Seq::empty(), line.drop_first()))
    } else {
        match eq_split(line.drop_first()) {
            None => None,
            Some(kv) => Some((seq![line[0]] + kv.0, kv.1)),
        }
    }
}

proof fn lemma_eq_split_at(line: Seq<char>, k: int)
    requires
        0 <= k < line.len(),
        line[k] == '=',
        forall|j: int| 0 <= j < k ==> line[j] != '=',
    ensures
        eq_split(line) == Some((line.take(k), line.skip(k + 1))),
    decreases k,
{
    if k == 0 {
        assert(line.take(0) =~= Seq::<char>::empty());
        assert(line.skip(1) =~= line.drop_first());
    } else {
        let rest = line.drop_first();
        assert(forall|j: int| 0 <= j < k - 1 ==> rest[j] == line[j + 1]);
        lemma_eq_split_at(rest, k - 1);
        assert(seq![line[0]] + rest.take(k - 1) =~= line.take(k));
        assert(rest.skip(k) =~= line.skip(k + 1));
    }
}

proof fn lemma_eq_split_none(line: Seq<char>)
    requires
        forall|j: int| 0 <= j < line.len() ==> line[j] != '=',
    ensures
        eq_split(line) is None,
    decreases line.len(),
{
    if line.len() > 0 {
        let rest = line.drop_first();
        assert(forall|j: int| 0 <= j < rest.len() ==> rest[j] != '=');
        lemma_eq_split_none(rest);
    }
}

/// The record every metadata file starts from: unknown version, empty
/// strings, zero counts.
pub open spec fn empty_meta() -> MetaModel {
    MetaModel {
        version: Version::Unknown,
        bookname: Seq::empty(),
        wordcount: 0,
        synwordcount: 0,
        idxfilesize: 0,
        idxoffsetbits: 0,
        author: Seq::empty(),
        email: Seq::empty(),
        website: Seq::empty(),
        description: Seq::empty(),
        date: Seq::empty(),
        sametypesequence: Seq::empty(),
        dicttype: Seq::empty(),
    }
}

/// Which version the `version` value selects.
pub open spec fn version_of(val: Seq<char>) -> Version {
    if val == "2.4.2"@ {
        Version::V242
    } else if val == "3.0.0"@ {
        Version::V300
    } else {
        Version::Unknown
    }
}

/// The effect of one metadata line on the record: lines without `=` and
/// unknown keys change nothing; a malformed numeric field fails the parse.
pub open spec fn apply_line(m: MetaModel, line: Seq<char>) -> Option<MetaModel> {
    match eq_split(line) {
        None => Some(m),
        Some(kv) => {
            let key = kv.0;
            let val = kv.1;
            if key == "version"@ {
                Some(MetaModel { version: version_of(val), ..m })
            } else if key == "bookname"@ {
                Some(MetaModel { bookname: val, ..m })
            } else if key == "wordcount"@ {
                match parsed_number(val) {
                    Some(v) => Some(MetaModel { wordcount: v, ..m }),
                    None => None,
                }
            } else if key == "synwordcount"@ {
                match parsed_number(val) {
                    Some(v) => Some(MetaModel { synwordcount: v, ..m }),
                    None => None,
                }
            } else if key == "idxfilesize"@ {
                match parsed_number(val) {
                    Some(v) => Some(MetaModel { idxfilesize: v, ..m }),
                    None => None,
                }
            } else if key == "idxoffsetbits"@ {
                match parsed_number(val) {
                    Some(v) => Some(MetaModel { idxoffsetbits: v, ..m }),
                    None => None,
                }
            } else if key == "author"@ {
                Some(MetaModel { author: val, ..m })
            } else if key == "email"@ {
                Some(MetaModel { email: val, ..m })
            } else if key == "website"@ {
                Some(MetaModel { website: val, ..m })
            } else if key == "description"@ {
                Some(MetaModel { description: val, ..m })
            } else if key == "date"@ {
                Some(MetaModel { date: val, ..m })
            } else if key == "sametypesequence"@ {
                Some(MetaModel { sametypesequence: val, ..m })
            } else if key == "dicttype"@ {
                Some(MetaModel { dicttype: val, ..m })
            } else {
                Some(m)
            }
        },
    }
}

/// The effect of a whole sequence of lines, first line first.
pub open spec fn apply_lines(m: MetaModel, ls: Seq<Seq<char>>) -> Option<MetaModel>
    decreases ls.len(),
{
    if ls.len() == 0 {
        Some(m)
    } else {
        match apply_line(m, ls[0]) {
            None => None,
            Some(m2) => apply_lines(m2, ls.drop_first()),
        }
    }
}

/// A `\r` left at the end of a line by a `\r\n` terminator is stripped.
pub open spec fn strip_cr(s: Seq<char>) -> Seq<char> {
    if s.len() > 0 && s.last() == '\r' {
        s.drop_last()
    } else {
        s
    }
}

/// The lines of a text: segments between `\n` characters, each with a
/// trailing `\r` stripped, and no final empty segment.
pub open spec fn split_lines_acc(s: Seq<char>, cur: Seq<char>) -> Seq<Seq<char>>
    decreases s.len(),
{
    if s.len() == 0 {
        if cur.len() == 0 {
            Seq::empty()
        } else {
            seq![strip_cr(cur)]
        }
    } else if s[0] == '\n' {
        seq![strip_cr(cur)] + split_lines_acc(s.drop_first(), Seq::empty())
    } else {
        split_lines_acc(s.drop_first(), cur.push(s[0]))
    }
}

pub open spec fn split_lines(s: Seq<char>) -> Seq<Seq<char>> {
    split_lines_acc(s, Seq::empty())
}

/// What the whole metadata file parses to, if it parses.
pub open spec fn meta_spec(text: Seq<char>) -> Option<MetaModel> {
    apply_lines(empty_meta(), split_lines(text))
}

/// The parsed metadata record.  Descriptive fields are carried verbatim
/// and never interpreted.
#[derive(Debug)]
pub struct Metadata {
    pub version: Version,
    pub bookname: String,
    pub wordcount: usize,
    pub synwordcount: usize,
    pub idxfilesize: usize,
    pub idxoffsetbits: usize,
    pub author: String,
    pub email: String,
    pub website: String,
    pub description: String,
    pub date: String,
    pub sametypesequence: String,
    pub dicttype: String,
}

impl View for Metadata {
    type V = MetaModel;

    open spec fn view(&self) -> MetaModel {
        MetaModel {
            version: self.version,
            bookname: self.bookname@,
            wordcount: self.wordcount as int,
            synwordcount: self.synwordcount as int,
            idxfilesize: self.idxfilesize as int,
            idxoffsetbits: self.idxoffsetbits as int,
            author: self.author@,
            email: self.email@,
            website: self.website@,
            description: self.description@,
            date: self.date@,
            sametypesequence: self.sametypesequence@,
            dicttype: self.dicttype@,
        }
    }
}

impl Metadata {
    fn empty() -> (r: Metadata)
        ensures
            r@ == empty_meta(),
    {
        Metadata {
            version: Version::Unknown,
            bookname: String::new(),
            wordcount: 0,
            synwordcount: 0,
            idxfilesize: 0,
            idxoffsetbits: 0,
            author: String::new(),
            email: String::new(),
            website: String::new(),
            description: String::new(),
            date: String::new(),
            sametypesequence: String::new(),
            dicttype: String::new(),
        }
    }

    /// Fold one line into the record under construction.
    fn apply_one(&mut self, line: &str) -> (r: Result<(), Error>)
        ensures
            match r {
                Ok(_) => apply_line(old(self)@, line@) == Some(final(self)@),
                Err(e) => apply_line(old(self)@, line@) is None && e == Error::ParseError,
            },
    {
        let n = line.unicode_len();
        let mut k: usize = 0;
        while k < n
            invariant_except_break
                k <= n,
                n == line@.len(),
                forall|j: int| 0 <= j < k ==> line@[j] != '=',
            ensures
                k <= n,
                forall|j: int| 0 <= j < k ==> line@[j] != '=',
                k < n ==> line@[k as int] == '=',
            decreases n - k,
        {
            if line.get_char(k) == '=' {
                break;
            }
            k = k + 1;
        }
        if k == n {
            proof {
                lemma_eq_split_none(line@);
            }
            return Ok(());
        }
        proof {
            lemma_eq_split_at(line@, k as int);
        }
        let key = line.substring_char(0, k);
        let val = line.substring_char(k + 1, n);
        assert(key@ == line@.take(k as int));
        assert(val@ =~= line@.skip(k + 1));

        if str_eq(key, "version") {
            if str_eq(val, "2.4.2") {
                self.version = Version::V242;
            } else if str_eq(val, "3.0.0") {
                self.version = Version::V300;
            } else {
                self.version = Version::Unknown;
            }
            Ok(())
        } else if str_eq(key, "bookname") {
            self.bookname = val.to_owned();
            Ok(())
        } else if str_eq(key, "wordcount") {
            match parse_usize(val) {
                Some(v) => {
                    self.wordcount = v;
                    Ok(())
                },
                None => Err(Error::ParseError),
            }
        } else if str_eq(key, "synwordcount") {
            match parse_usize(val) {
                Some(v) => {
                    self.synwordcount = v;
                    Ok(())
                },
                None => Err(Error::ParseError),
            }
        } else if str_eq(key, "idxfilesize") {
            match parse_usize(val) {
                Some(v) => {
                    self.idxfilesize = v;
                    Ok(())
                },
                None => Err(Error::ParseError),
            }
        } else if str_eq(key, "idxoffsetbits") {
            match parse_usize(val) {
                Some(v) => {
                    self.idxoffsetbits = v;
                    Ok(())
                },
                None => Err(Error::ParseError),
            }
        } else if str_eq(key, "author") {
            self.author = val.to_owned();
            Ok(())
        } else if str_eq(key, "email") {
            self.email = val.to_owned();
            Ok(())
        } else if str_eq(key, "website") {
            self.website = val.to_owned();
            Ok(())
        } else if str_eq(key, "description") {
            self.description = val.to_owned();
            Ok(())
        } else if str_eq(key, "date") {
            self.date = val.to_owned();
            Ok(())
        } else if str_eq(key, "sametypesequence") {
            self.sametypesequence = val.to_owned();
            Ok(())
        } else if str_eq(key, "dicttype") {
            self.dicttype = val.to_owned();
            Ok(())
        } else {
            Ok(())
        }
    }

    /// Parse a whole metadata file.
    pub fn new(text: &str) -> (r: Result<Metadata, Error>)
        ensures
            match r {
                Ok(m) => meta_spec(text@) == Some(m@),
                Err(e) => meta_spec(text@) is None && e == Error::ParseError,
            },
    {
        let lines = split_into_lines(text);
        let ghost lv = lines@.map_values(|l: String| l@);
        let mut m = Metadata::empty();
        let n = lines.len();
        let mut i: usize = 0;
        proof {
            assert(lv.skip(0) =~= lv);
        }
        while i < n
            invariant
                i <= n,
                n == lines@.len(),
                lv == lines@.map_values(|l: String| l@),
                lv == split_lines(text@),
                apply_lines(empty_meta(), split_lines(text@)) == apply_lines(m@, lv.skip(i as int)),
            decreases n - i,
        {
            proof {
                assert(lv.skip(i as int)[0] == lv[i as int]);
                assert(lv.skip(i as int).drop_first() =~= lv.skip(i + 1));
            }
            match m.apply_one(&lines[i]) {
                Ok(_) => {},
                Err(e) => {
                    return Err(e);
                },
            }
            i = i + 1;
        }
        proof {
            assert(lv.skip(n as int) =~= Seq::<Seq<char>>::empty());
        }
        Ok(m)
    }

    /// The format version the metadata declares.
    pub fn version(&self) -> (r: Version)
        ensures
            r == self@.version,
    {
        self.version
    }
}

/// Split a text into its lines.
fn split_into_lines(text: &str) -> (r: Vec<String>)
    ensures
        r@.map_values(|l: String| l@) == split_lines(text@),
{
    let n = text.unicode_len();
    let mut out: Vec<String> = Vec::new();
    let mut cur: Vec<char> = Vec::new();
    let mut i: usize = 0;
    proof {
        assert(text@.skip(0) =~= text@);
        assert(out@.map_values(|l: String| l@) + split_lines_acc(text@, cur@) =~= split_lines_acc(
            text@,
            cur@,
        ));
        assert(cur@ =~= Seq::<char>::empty());
    }
    while i < n
        invariant
            i <= n,
            n == text@.len(),
            split_lines(text@) == out@.map_values(|l: String| l@) + split_lines_acc(
                text@.skip(i as int),
                cur@,
            ),
        decreases n - i,
    {
        let c = text.get_char(i);
        proof {
            assert(text@.skip(i as int)[0] == text@[i as int]);
            assert(text@.skip(i as int).drop_first() =~= text@.skip(i + 1));
        }
        if c == '\n' {
            let ghost old_out = out@;
            let ghost old_cur = cur@;
            let line = finish_line(&mut cur);
            out.push(line);
            proof {
                assert(split_lines_acc(text@.skip(i as int), old_cur) == seq![strip_cr(old_cur)]
                    + split_lines_acc(text@.skip(i + 1), Seq::<char>::empty()));
                assert(out@.map_values(|l: String| l@) =~= old_out.map_values(|l: String| l@).push(
                    line@,
                ));
                assert(old_out.map_values(|l: String| l@) + split_lines_acc(
                    text@.skip(i as int),
                    old_cur,
                ) =~= out@.map_values(|l: String| l@) + split_lines_acc(text@.skip(i + 1), cur@));
            }
        } else {
            let ghost old_cur = cur@;
            cur.push(c);
            proof {
                assert(split_lines_acc(text@.skip(i as int), old_cur) == split_lines_acc(
                    text@.skip(i + 1),
                    old_cur.push(text@[i as int]),
                ));
            }
        }
        i = i + 1;
    }
    proof {
        assert(text@.skip(n as int) =~= Seq::<char>::empty());
    }
    if cur.len() > 0 {
        let ghost old_out = out@;
        let ghost old_cur = cur@;
        let line = finish_line(&mut cur);
        out.push(line);
        proof {
            assert(split_lines_acc(Seq::<char>::empty(), old_cur) == seq![strip_cr(old_cur)]);
            assert(out@.map_values(|l: String| l@) =~= old_out.map_values(|l: String| l@).push(
                line@,
            ));
            assert(old_out.map_values(|l: String| l@) + split_lines_acc(
                Seq::<char>::empty(),
                old_cur,
            ) =~= out@.map_values(|l: String| l@));
        }
    } else {
        proof {
            assert(split_lines_acc(Seq::<char>::empty(), cur@) == Seq::<Seq<char>>::empty());
            assert(out@.map_values(|l: String| l@) + Seq::<Seq<char>>::empty() =~= out@.map_values(
                |l: String| l@,
            ));
        }
    }
    out
}

/// Close the line under construction: strip a trailing `\r`, hand the line
/// out, and leave the buffer empty.
fn finish_line(cur: &mut Vec<char>) -> (r: String)
    ensures
        r@ == strip_cr(old(cur)@),
        final(cur)@ == Seq::<char>::empty(),
{
    if cur.len() > 0 && cur[cur.len() - 1] == '\r' {
        cur.pop();
    }
    let r = crate::text::string_from_chars(cur);
    cur.clear();
    r
}

} // verus!
