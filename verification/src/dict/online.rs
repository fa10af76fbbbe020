//! The online dictionary source.  The network call and the HTML parsing
//! live in the surrounding application, which implements the dictionary
//! interface over this marker; what can be verified of it is the query
//! classification below.

use vstd::prelude::*;
use vstd::string::StrSliceExecFns;

verus! {

/// The online dictionary service, as a source the application wires up.
#[derive(Clone, Copy, Debug, PartialEq, Eq, Structural)]
pub struct OnlineDict;

/// Whether a query reads as an English word: ASCII letters and ASCII
/// whitespace only.  It decides the translation direction.
pub open spec fn is_english_spec(s: Seq<u8>) -> bool {
    forall|i: int|
        0 <= i < s.len() ==> (is_ascii_alpha(#[trigger] s[i]) || is_ascii_space(s[i]))
}

/// An ASCII letter.
pub open spec fn is_ascii_alpha(b: u8) -> bool {
    (65 <= b && b <= 90) || (97 <= b && b <= 122)
}

/// An ASCII whitespace byte, as `u8::is_ascii_whitespace` counts them:
/// space, tab, line feed, form feed, carriage return.
pub open spec fn is_ascii_space(b: u8) -> bool {
    b == 32 || b == 9 || b == 10 || b == 12 || b == 13
}

/// Is an English word?
pub fn is_english(word: &str) -> (r: bool)
    ensures
        r == is_english_spec(vstd::utf8::encode_utf8(word@)),
{
    let bytes = word.as_bytes_vec();
    let n = bytes.len();
    let mut i: usize = 0;
    while i < n
        invariant
            i <= n,
            n == bytes@.len(),
            bytes@ == vstd::utf8::encode_utf8(word@),
            forall|k: int|
                0 <= k < i ==> (is_ascii_alpha(#[trigger] bytes@[k]) || is_ascii_space(bytes@[k])),
        decreases n - i,
    {
        let b = bytes[i];
        let alpha = (65 <= b && b <= 90) || (97 <= b && b <= 122);
        let space = b == 32 || b == 9 || b == 10 || b == 12 || b == 13;
        if !(alpha || space) {
            return false;
        }
        i = i + 1;
    }
    true
}

} // verus!
