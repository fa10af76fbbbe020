//! The binary index: a stream of records, each a NUL-terminated headword
//! followed by two fixed-width big-endian integers giving the byte range
//! of the translation inside the payload.  The loader decodes the stream,
//! drops records with empty headwords, and sorts what remains under a
//! case-insensitive order with a case-sensitive tie-break, so that binary
//! search is valid no matter how the file was produced.

use vstd::prelude::*;
use vstd::multiset::Multiset;
use vstd::seq_lib::lemma_multiset_commutative;

use crate::error::Error;
use crate::metadata::Version;
use crate::text::{chars_lt, lemma_chars_lt_trans, lemma_chars_trichotomy, lossy_decode, lower_of,
    Rel};

verus! {

/// One loaded index record.
#[derive(Debug)]
pub struct IndexEntry {
    /// The headword, after lossy decoding and stripping of replacement
    /// characters.
    pub word: String,
    /// The headword's case-folded form, fixed at load time.
    pub word_lower: String,
    /// Byte offset of the translation in the decoded payload.
    pub offset: u64,
    /// Byte length of the translation in the decoded payload.
    pub length: u64,
}

/// The mathematical content of an index record.
pub ghost struct EntryModel {
    pub word: Seq<char>,
    pub offset: int,
    pub length: int,
}

impl View for IndexEntry {
    type V = EntryModel;

    open spec fn view(&self) -> EntryModel {
        EntryModel { word: self.word@, offset: self.offset as int, length: self.length as int }
    }
}

/// The models of a sequence of records.
pub open spec fn models_of(s: Seq<IndexEntry>) -> Seq<EntryModel> {
    s.map_values(|e: IndexEntry| e@)
}

/// Whether an entry's cached case-folded form is the fold of its word.
pub open spec fn entry_coherent(e: IndexEntry) -> bool {
    e.word_lower@ == lower_of(e.word@)
}

/// The load-time sort order on headwords: case-insensitive first,
/// case-sensitive as the tie-break.
pub open spec fn key_lt(a: Seq<char>, b: Seq<char>) -> bool {
    chars_lt(lower_of(a), lower_of(b)) || (lower_of(a) == lower_of(b) && chars_lt(a, b))
}

pub open spec fn key_le(a: Seq<char>, b: Seq<char>) -> bool {
    key_lt(a, b) || a == b
}

/// Whether a sequence of records is sorted under the load-time order.
pub open spec fn sorted_by_key(s: Seq<EntryModel>) -> bool {
    forall|i: int, j: int| 0 <= i < j < s.len() ==> key_le(#[trigger] s[i].word, #[trigger] s[j].word)
}

/// Of two headwords, exactly one of `a < b`, `a == b`, `b < a` holds under
/// the load-time order.
pub proof fn lemma_key_trichotomy(a: Seq<char>, b: Seq<char>)
    ensures
        key_lt(a, b) || a == b || key_lt(b, a),
        key_lt(a, b) ==> a != b && !key_lt(b, a),
{
    lemma_chars_trichotomy(lower_of(a), lower_of(b));
    lemma_chars_trichotomy(a, b);
}

/// The load-time order is transitive.
pub proof fn lemma_key_lt_trans(a: Seq<char>, b: Seq<char>, c: Seq<char>)
    requires
        key_lt(a, b),
        key_lt(b, c),
    ensures
        key_lt(a, c),
{
    let la = lower_of(a);
    let lb = lower_of(b);
    let lc = lower_of(c);
    if chars_lt(la, lb) && chars_lt(lb, lc) {
        lemma_chars_lt_trans(la, lb, lc);
    } else if la == lb && lb == lc {
        lemma_chars_lt_trans(a, b, c);
    }
}

/// A sorted pair is also ordered case-insensitively.
pub proof fn lemma_key_le_lower(a: Seq<char>, b: Seq<char>)
    requires
        key_le(a, b),
    ensures
        crate::text::chars_le(lower_of(a), lower_of(b)),
{
}

pub proof fn lemma_key_le_lt_trans(a: Seq<char>, b: Seq<char>, c: Seq<char>)
    requires
        key_le(a, b),
        key_lt(b, c),
    ensures
        key_lt(a, c),
{
    if key_lt(a, b) {
        lemma_key_lt_trans(a, b, c);
    }
}

pub proof fn lemma_key_lt_le_trans(a: Seq<char>, b: Seq<char>, c: Seq<char>)
    requires
        key_lt(a, b),
        key_le(b, c),
    ensures
        key_lt(a, c),
{
    if key_lt(b, c) {
        lemma_key_lt_trans(a, b, c);
    }
}

pub proof fn lemma_key_le_trans(a: Seq<char>, b: Seq<char>, c: Seq<char>)
    requires
        key_le(a, b),
        key_le(b, c),
    ensures
        key_le(a, c),
{
    if key_lt(a, b) && key_lt(b, c) {
        lemma_key_lt_trans(a, b, c);
    }
}

/// A lossily decoded headword with every replacement character removed.
pub open spec fn strip_marks(s: Seq<char>) -> Seq<char>
    decreases s.len(),
{
    if s.len() == 0 {
        Seq::empty()
    } else if s.last() == '\u{fffd}' {
        strip_marks(s.drop_last())
    } else {
        strip_marks(s.drop_last()).push(s.last())
    }
}

/// Remove every replacement character left behind by lossy decoding.
fn strip_replacement_chars(s: &str) -> (r: Vec<char>)
    ensures
        r@ == strip_marks(s@),
{
    let chars = crate::text::chars_to_vec(s);
    let n = chars.len();
    let mut out: Vec<char> = Vec::new();
    let mut i: usize = 0;
    proof {
        assert(s@.take(0) =~= Seq::<char>::empty());
    }
    while i < n
        invariant
            i <= n,
            n == s@.len(),
            chars@ == s@,
            out@ == strip_marks(s@.take(i as int)),
        decreases n - i,
    {
        let c = chars[i];
        proof {
            assert(s@.take(i + 1).drop_last() =~= s@.take(i as int));
            assert(s@.take(i + 1).last() == s@[i as int]);
        }
        if c != '\u{fffd}' {
            out.push(c);
        }
        i = i + 1;
    }
    proof {
        assert(s@.take(n as int) =~= s@);
    }
    out
}

/// The big-endian value of a byte string.
pub open spec fn be_val(b: Seq<u8>) -> int
    decreases b.len(),
{
    if b.len() == 0 {
        0
    } else {
        be_val(b.drop_last()) * 256 + b.last()
    }
}

/// 256 to the power of `n`.
pub open spec fn pow256(n: nat) -> int
    decreases n,
{
    if n == 0 {
        1
    } else {
        256 * pow256((n - 1) as nat)
    }
}

proof fn lemma_be_val_bound(b: Seq<u8>)
    ensures
        0 <= be_val(b) < pow256(b.len()),
    decreases b.len(),
{
    if b.len() > 0 {
        lemma_be_val_bound(b.drop_last());
    }
}

proof fn lemma_pow256_values()
    ensures
        pow256(0) == 1,
        pow256(1) == 0x100,
        pow256(2) == 0x10000,
        pow256(3) == 0x1000000,
        pow256(4) == 0x100000000,
        pow256(5) == 0x10000000000,
        pow256(6) == 0x1000000000000,
        pow256(7) == 0x100000000000000,
        pow256(8) == 0x10000000000000000,
{
    assert(pow256(0) == 1);
    assert(pow256(1) == 0x100);
    assert(pow256(2) == 0x10000);
    assert(pow256(3) == 0x1000000);
    assert(pow256(4) == 0x100000000);
    assert(pow256(5) == 0x10000000000);
    assert(pow256(6) == 0x1000000000000);
    assert(pow256(7) == 0x100000000000000);
    assert(pow256(8) == 0x10000000000000000);
}

proof fn lemma_pow256_le(i: nat, j: nat)
    requires
        i <= j,
    ensures
        pow256(i) <= pow256(j),
    decreases j,
{
    if i < j {
        lemma_pow256_le(i, (j - 1) as nat);
        lemma_be_val_bound(Seq::empty());
        assert(pow256((j - 1) as nat) >= 1) by {
            lemma_pow256_pos((j - 1) as nat);
        }
    }
}

proof fn lemma_pow256_pos(n: nat)
    ensures
        pow256(n) >= 1,
    decreases n,
{
    if n > 0 {
        lemma_pow256_pos((n - 1) as nat);
    }
}

/// Read a big-endian unsigned integer of up to eight bytes.
fn read_be(b: &Vec<u8>, start: usize, width: usize) -> (v: u64)
    requires
        start + width <= b@.len(),
        width <= 8,
    ensures
        v as int == be_val(b@.subrange(start as int, start + width)),
{
    let blen = b.len();
    let mut acc: u64 = 0;
    let mut i: usize = 0;
    proof {
        assert(b@.subrange(start as int, start as int) =~= Seq::<u8>::empty());
    }
    while i < width
        invariant
            i <= width,
            width <= 8,
            blen == b@.len(),
            start + width <= blen,
            acc as int == be_val(b@.subrange(start as int, start + i)),
        decreases width - i,
    {
        proof {
            let pre = b@.subrange(start as int, start + i);
            lemma_be_val_bound(pre);
            assert(pre.len() == i as nat);
            lemma_pow256_le(i as nat, 7);
            lemma_pow256_values();
            assert(acc as int <= pow256(7) - 1);
            assert((pow256(7) - 1) * 256 + 255 == 0xffffffffffffffff);
            assert(acc as int * 256 <= (pow256(7) - 1) * 256) by (nonlinear_arith)
                requires
                    acc as int <= pow256(7) - 1,
            ;
            assert(acc as int * 256 + 255 <= 0xffffffffffffffff);
            assert(b@.subrange(start as int, start + i + 1).drop_last() =~= pre);
            assert(b@.subrange(start as int, start + i + 1).last() == b@[start + i]);
        }
        acc = acc * 256 + (b[start + i] as u64);
        i = i + 1;
    }
    acc
}

/// The integer width of a format version's index records.
pub open spec fn int_width(v: Version) -> nat {
    match v {
        Version::V242 => 4,
        Version::V300 => 8,
        Version::Unknown => 0,
    }
}

/// The position of the first NUL byte, or the length when there is none.
pub open spec fn first_nul(b: Seq<u8>) -> nat
    decreases b.len(),
{
    if b.len() == 0 {
        0
    } else if b[0] == 0 {
        0
    } else {
        1 + first_nul(b.drop_first())
    }
}

proof fn lemma_first_nul_at(s: Seq<u8>, k: int)
    requires
        0 <= k <= s.len(),
        forall|j: int| 0 <= j < k ==> s[j] != 0,
        k < s.len() ==> s[k] == 0,
    ensures
        first_nul(s) == k,
    decreases k,
{
    if s.len() == 0 {
    } else if k == 0 {
    } else {
        let rest = s.drop_first();
        assert(forall|j: int| 0 <= j < k - 1 ==> rest[j] == s[j + 1]);
        assert(k - 1 < rest.len() ==> rest[k - 1] == s[k as int]);
        lemma_first_nul_at(rest, k - 1);
    }
}

/// What the index byte stream parses to: `None` when a record is
/// truncated, otherwise the records in file order, records with empty
/// headwords dropped.
pub open spec fn parse_records(b: Seq<u8>, width: nat) -> Option<Seq<EntryModel>>
    decreases b.len(),
{
    if b.len() == 0 {
        Some(Seq::empty())
    } else {
        let k = first_nul(b) as int;
        if k + 1 + 2 * width <= b.len() {
            let word = strip_marks(lossy_decode(b.take(k)));
            let off = be_val(b.subrange(k + 1, k + 1 + width));
            let len = be_val(b.subrange(k + 1 + width, k + 1 + 2 * width));
            match parse_records(b.skip(k + 1 + 2 * width), width) {
                None => None,
                Some(tail) => {
                    if word.len() == 0 {
                        Some(tail)
                    } else {
                        Some(seq![EntryModel { word: word, offset: off, length: len }] + tail)
                    }
                },
            }
        } else {
            None
        }
    }
}

/// Copy a byte range out of the file image.
fn copy_range(b: &Vec<u8>, from: usize, to: usize) -> (r: Vec<u8>)
    requires
        from <= to <= b@.len(),
    ensures
        r@ == b@.subrange(from as int, to as int),
{
    let mut r: Vec<u8> = Vec::new();
    let mut i = from;
    proof {
        assert(b@.subrange(from as int, from as int) =~= Seq::<u8>::empty());
    }
    while i < to
        invariant
            from <= i <= to,
            to <= b@.len(),
            r@ == b@.subrange(from as int, i as int),
        decreases to - i,
    {
        proof {
            assert(b@.subrange(from as int, i + 1).drop_last() =~= b@.subrange(
                from as int,
                i as int,
            ));
            assert(b@.subrange(from as int, i + 1).last() == b@[i as int]);
        }
        r.push(b[i]);
        assert(r@ =~= b@.subrange(from as int, i + 1));
        i = i + 1;
    }
    r
}

/// Decode the whole index byte stream.
pub fn parse_index(b: &Vec<u8>, version: Version) -> (r: Result<Vec<IndexEntry>, Error>)
    ensures
        match r {
            Ok(v) => !(version is Unknown) && parse_records(b@, int_width(version)) == Some(
                models_of(v@),
            ) && forall|i: int| 0 <= i < v@.len() ==> entry_coherent(#[trigger] v@[i]),
            Err(e) => (version is Unknown && e == Error::UnsupportedVersion) || (!(version
                is Unknown) && e == Error::IoError && parse_records(b@, int_width(version))
                is None),
        },
{
    let width: usize = match version {
        Version::V242 => 4,
        Version::V300 => 8,
        Version::Unknown => {
            return Err(Error::UnsupportedVersion);
        },
    };
    let ghost w = int_width(version);
    let n = b.len();
    let mut out: Vec<IndexEntry> = Vec::new();
    let mut pos: usize = 0;
    proof {
        assert(b@.skip(0) =~= b@);
        assert(models_of(out@) =~= Seq::<EntryModel>::empty());
        if parse_records(b@, w) is Some {
            assert(models_of(out@) + parse_records(b@, w)->Some_0 =~= parse_records(
                b@,
                w,
            )->Some_0);
        }
    }
    while pos < n
        invariant
            pos <= n,
            n == b@.len(),
            w == int_width(version),
            width == w,
            width == 4 || width == 8,
            forall|i: int| 0 <= i < out@.len() ==> entry_coherent(#[trigger] out@[i]),
            (parse_records(b@, w) is Some) == (parse_records(b@.skip(pos as int), w) is Some),
            parse_records(b@, w) is Some ==> parse_records(b@, w)->Some_0 == models_of(out@)
                + parse_records(b@.skip(pos as int), w)->Some_0,
        decreases n - pos,
    {
        let ghost s = b@.skip(pos as int);
        let mut k: usize = pos;
        while k < n
            invariant_except_break
                pos <= k <= n,
                n == b@.len(),
                forall|j: int| pos <= j < k ==> b@[j] != 0,
            ensures
                pos <= k <= n,
                forall|j: int| pos <= j < k ==> b@[j] != 0,
                k < n ==> b@[k as int] == 0,
            decreases n - k,
        {
            if b[k] == 0 {
                break;
            }
            k = k + 1;
        }
        proof {
            assert(forall|j: int| 0 <= j < s.len() ==> s[j] == b@[pos + j]);
            lemma_first_nul_at(s, k - pos);
            assert(first_nul(s) == (k - pos) as nat);
        }
        if n - k < 1 + 2 * width {
            proof {
                assert(s.len() == n - pos);
                assert((k - pos) + 1 + 2 * w > s.len());
                assert(parse_records(s, w) is None);
            }
            return Err(Error::IoError);
        }
        let word_bytes = copy_range(b, pos, k);
        let decoded = crate::text::utf8_lossy(&word_bytes);
        let stripped = strip_replacement_chars(decoded.as_str());
        let off = read_be(b, k + 1, width);
        let len = read_be(b, k + 1 + width, width);
        let ghost next = (k + 1 + 2 * width) as int;
        proof {
            assert(s.take(k - pos) =~= b@.subrange(pos as int, k as int));
            assert(s.subrange((k - pos) + 1, (k - pos) + 1 + w) =~= b@.subrange(
                k + 1,
                k + 1 + w,
            ));
            assert(s.subrange((k - pos) + 1 + w, (k - pos) + 1 + 2 * w) =~= b@.subrange(
                k + 1 + w,
                k + 1 + 2 * w,
            ));
            assert(s.skip((k - pos) + 1 + 2 * w) =~= b@.skip(next));
            assert(stripped@ == strip_marks(lossy_decode(b@.subrange(pos as int, k as int))));
        }
        let ghost m = EntryModel { word: stripped@, offset: off as int, length: len as int };
        if stripped.len() > 0 {
            let word = crate::text::string_from_chars(&stripped);
            let word_lower = crate::text::lowercase(word.as_str());
            let ghost old_out = out@;
            let e = IndexEntry { word, word_lower, offset: off, length: len };
            assert(e@ == m);
            out.push(e);
            proof {
                assert(models_of(out@) =~= models_of(old_out).push(m));
                if parse_records(b@, w) is Some {
                    let tail = parse_records(b@.skip(next), w)->Some_0;
                    assert(parse_records(s, w)->Some_0 == seq![m] + tail);
                    assert(models_of(old_out) + (seq![m] + tail) =~= models_of(out@) + tail);
                }
            }
        } else {
            proof {
                if parse_records(b@, w) is Some {
                    let tail = parse_records(b@.skip(next), w)->Some_0;
                    assert(parse_records(s, w)->Some_0 == tail);
                }
            }
        }
        pos = k + 1 + 2 * width;
    }
    proof {
        assert(b@.skip(n as int) =~= Seq::<u8>::empty());
        assert(parse_records(b@.skip(n as int), w) == Some(Seq::<EntryModel>::empty()));
        if parse_records(b@, w) is Some {
            assert(models_of(out@) + Seq::<EntryModel>::empty() =~= models_of(out@));
        }
    }
    Ok(out)
}

/// Compare two loaded entries under the load-time order.
fn cmp_entries(a: &IndexEntry, b: &IndexEntry) -> (r: Rel)
    requires
        entry_coherent(*a),
        entry_coherent(*b),
    ensures
        r is Lt <==> key_lt(a.word@, b.word@),
        r is Eq <==> a.word@ == b.word@,
        r is Gt <==> key_lt(b.word@, a.word@),
{
    proof {
        lemma_key_trichotomy(a.word@, b.word@);
        lemma_chars_trichotomy(a.word@, b.word@);
        lemma_chars_trichotomy(lower_of(a.word@), lower_of(b.word@));
    }
    match crate::text::cmp_str(a.word_lower.as_str(), b.word_lower.as_str()) {
        Rel::Lt => Rel::Lt,
        Rel::Gt => Rel::Gt,
        Rel::Eq => crate::text::cmp_str(a.word.as_str(), b.word.as_str()),
    }
}

/// Insert an entry into an already sorted vector, keeping it sorted and
/// placing the newcomer after its equals.
fn insert_sorted(out: &mut Vec<IndexEntry>, e: IndexEntry)
    requires
        sorted_by_key(models_of(old(out)@)),
        forall|i: int| 0 <= i < old(out)@.len() ==> entry_coherent(#[trigger] old(out)@[i]),
        entry_coherent(e),
    ensures
        sorted_by_key(models_of(final(out)@)),
        forall|i: int| 0 <= i < final(out)@.len() ==> entry_coherent(#[trigger] final(out)@[i]),
        final(out)@.to_multiset() == old(out)@.to_multiset().insert(e),
        models_of(final(out)@).to_multiset() == models_of(old(out)@).to_multiset().insert(e@),
{
    let n = out.len();
    let mut j: usize = 0;
    while j < n
        invariant_except_break
            j <= n,
            n == out@.len(),
            out@ == old(out)@,
            forall|i: int| 0 <= i < out@.len() ==> entry_coherent(#[trigger] out@[i]),
            entry_coherent(e),
            forall|i: int| 0 <= i < j ==> key_le(#[trigger] models_of(out@)[i].word, e.word@),
        ensures
            j <= n,
            n == out@.len(),
            out@ == old(out)@,
            forall|i: int| 0 <= i < j ==> key_le(#[trigger] models_of(out@)[i].word, e.word@),
            j < n ==> key_lt(e.word@, models_of(out@)[j as int].word),
        decreases n - j,
    {
        let c = cmp_entries(&out[j], &e);
        if matches!(c, Rel::Gt) {
            proof {
                lemma_key_trichotomy(out@[j as int].word@, e.word@);
            }
            break;
        }
        proof {
            lemma_key_trichotomy(out@[j as int].word@, e.word@);
        }
        j = j + 1;
    }
    let ghost before = out@;
    let ghost em = e@;
    out.insert(j, e);
    proof {
        let after = out@;
        assert(after == before.insert(j as int, e));
        assert(after.len() == before.len() + 1);
        assert(forall|i: int| 0 <= i < j ==> after[i] == before[i]);
        assert(after[j as int] == e);
        assert(forall|i: int| j < i < after.len() ==> after[i] == before[i - 1]);
        assert(forall|i: int| 0 <= i < before.len() ==> #[trigger] models_of(before)[i]
            == before[i]@);
        assert(forall|i: int| 0 <= i < after.len() ==> #[trigger] models_of(after)[i]
            == after[i]@);
        if j < before.len() {
            assert(key_lt(e.word@, models_of(before)[j as int].word));
            assert(key_le(e.word@, before[j as int].word@));
        }
        // sortedness: entries below j are at most e, entries above are greater
        assert forall|p: int, q: int| 0 <= p < q < after.len() implies key_le(
            #[trigger] models_of(after)[p].word,
            #[trigger] models_of(after)[q].word,
        ) by {
            if q < j {
                assert(key_le(models_of(before)[p].word, models_of(before)[q].word));
            } else if q == j {
                assert(models_of(after)[p] == models_of(before)[p]);
                assert(key_le(models_of(before)[p].word, e.word@));
            } else if p == j {
                assert(models_of(after)[q] == models_of(before)[q - 1]);
                if q - 1 > j {
                    assert(key_le(models_of(before)[j as int].word, models_of(before)[q - 1].word));
                    lemma_key_le_trans(e.word@, before[j as int].word@, before[q - 1].word@);
                }
            } else if p < j {
                assert(models_of(after)[p] == models_of(before)[p]);
                assert(models_of(after)[q] == models_of(before)[q - 1]);
                if p == q - 1 {
                } else {
                    assert(key_le(models_of(before)[p].word, models_of(before)[q - 1].word));
                }
            } else {
                assert(models_of(after)[p] == models_of(before)[p - 1]);
                assert(models_of(after)[q] == models_of(before)[q - 1]);
                assert(key_le(models_of(before)[p - 1].word, models_of(before)[q - 1].word));
            }
        }
        // coherence
        assert forall|i: int| 0 <= i < after.len() implies entry_coherent(
            #[trigger] after[i],
        ) by {
            if i < j {
                assert(after[i] == before[i]);
            } else if i == j {
                assert(after[i] == e);
            } else {
                assert(after[i] == before[i - 1]);
            }
        }
        // multiset: inserting anywhere adds one copy
        broadcast use vstd::multiset::group_multiset_axioms;

        assert(after =~= before.take(j as int) + (seq![e] + before.skip(j as int)));
        assert(before =~= before.take(j as int) + before.skip(j as int));
        lemma_multiset_commutative(before.take(j as int), seq![e] + before.skip(j as int));
        lemma_multiset_commutative(seq![e], before.skip(j as int));
        lemma_multiset_commutative(before.take(j as int), before.skip(j as int));
        assert(seq![e] =~= Seq::<IndexEntry>::empty().push(e));
        Seq::<IndexEntry>::empty().to_multiset_ensures();
        assert(Seq::<IndexEntry>::empty().to_multiset() =~= Multiset::<IndexEntry>::empty());
        assert(seq![e].to_multiset() =~= Multiset::<IndexEntry>::empty().insert(e));
        assert(after.to_multiset() =~= before.to_multiset().insert(e));
        // the same decomposition at the level of models
        let ma = models_of(after);
        let mb = models_of(before);
        assert(ma =~= mb.take(j as int) + (seq![e@] + mb.skip(j as int)));
        assert(mb =~= mb.take(j as int) + mb.skip(j as int));
        lemma_multiset_commutative(mb.take(j as int), seq![e@] + mb.skip(j as int));
        lemma_multiset_commutative(seq![e@], mb.skip(j as int));
        lemma_multiset_commutative(mb.take(j as int), mb.skip(j as int));
        assert(seq![e@] =~= Seq::<EntryModel>::empty().push(e@));
        Seq::<EntryModel>::empty().to_multiset_ensures();
        assert(Seq::<EntryModel>::empty().to_multiset() =~= Multiset::<EntryModel>::empty());
        assert(seq![e@].to_multiset() =~= Multiset::<EntryModel>::empty().insert(e@));
        assert(ma.to_multiset() =~= mb.to_multiset().insert(e@));
    }
}

/// Sort the loaded entries under the load-time order.
pub(crate) fn sort_entries(v: Vec<IndexEntry>) -> (r: Vec<IndexEntry>)
    requires
        forall|i: int| 0 <= i < v@.len() ==> entry_coherent(#[trigger] v@[i]),
    ensures
        sorted_by_key(models_of(r@)),
        forall|i: int| 0 <= i < r@.len() ==> entry_coherent(#[trigger] r@[i]),
        r@.to_multiset() == v@.to_multiset(),
        models_of(r@).to_multiset() == models_of(v@).to_multiset(),
{
    broadcast use vstd::multiset::group_multiset_axioms;

    let ghost orig = v@;
    let mut input = v;
    let mut out: Vec<IndexEntry> = Vec::new();
    proof {
        Seq::<IndexEntry>::empty().to_multiset_ensures();
        assert(out@.to_multiset() =~= Multiset::<IndexEntry>::empty());
        assert(out@.to_multiset().add(input@.to_multiset()) =~= orig.to_multiset());
        Seq::<EntryModel>::empty().to_multiset_ensures();
        assert(models_of(out@) =~= Seq::<EntryModel>::empty());
        assert(models_of(out@).to_multiset() =~= Multiset::<EntryModel>::empty());
        assert(models_of(out@).to_multiset().add(models_of(input@).to_multiset())
            =~= models_of(orig).to_multiset());
    }
    while input.len() > 0
        invariant
            sorted_by_key(models_of(out@)),
            forall|i: int| 0 <= i < out@.len() ==> entry_coherent(#[trigger] out@[i]),
            forall|i: int| 0 <= i < input@.len() ==> entry_coherent(#[trigger] input@[i]),
            out@.to_multiset().add(input@.to_multiset()) == orig.to_multiset(),
            models_of(out@).to_multiset().add(models_of(input@).to_multiset()) == models_of(
                orig,
            ).to_multiset(),
        decreases input@.len(),
    {
        let ghost old_input = input@;
        let ghost old_out = out@;
        let e = input.remove(0);
        proof {
            old_input.to_multiset_ensures();
            assert(input@.to_multiset() =~= old_input.to_multiset().remove(e));
            assert(old_input.contains(e));
            assert(old_input.to_multiset().count(e) > 0);
            assert forall|i: int| 0 <= i < input@.len() implies entry_coherent(
                #[trigger] input@[i],
            ) by {
                assert(input@[i] == old_input[i + 1]);
            }
            models_of(old_input).to_multiset_ensures();
            assert(models_of(input@) =~= models_of(old_input).remove(0));
            assert(models_of(input@).to_multiset() =~= models_of(old_input).to_multiset().remove(
                e@,
            ));
            assert(models_of(old_input)[0] == e@);
            assert(models_of(old_input).contains(e@));
            assert(models_of(old_input).to_multiset().count(e@) > 0);
        }
        insert_sorted(&mut out, e);
        proof {
            assert(out@.to_multiset().add(input@.to_multiset()) =~= old_out.to_multiset().add(
                old_input.to_multiset(),
            ));
            assert(models_of(out@).to_multiset().add(models_of(input@).to_multiset())
                =~= models_of(old_out).to_multiset().add(models_of(old_input).to_multiset()));
        }
    }
    proof {
        input@.to_multiset_ensures();
        assert(input@.to_multiset() =~= Multiset::<IndexEntry>::empty());
        assert(out@.to_multiset() =~= orig.to_multiset());
        models_of(input@).to_multiset_ensures();
        assert(models_of(input@) =~= Seq::<EntryModel>::empty());
        assert(models_of(input@).to_multiset() =~= Multiset::<EntryModel>::empty());
        assert(models_of(out@).to_multiset() =~= models_of(orig).to_multiset());
    }
    out
}

} // verus!
