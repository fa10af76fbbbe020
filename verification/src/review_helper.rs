//! Small helpers for the review screen: whether the answer side of a
//! card is showing, why a session ended, and how much room a text needs.

use vstd::prelude::*;
use vstd::string::StrSliceExecFns;
use vstd::utf8::encode_utf8;

verus! {

/// Whether the answer side of a card is showing.
#[derive(Clone, Copy, PartialEq, Eq, Structural)]
pub enum AnswerStatus {
    Show,
    Hide,
}

/// Why a review session ended.
#[derive(Clone, Copy)]
pub enum ExitCode {
    ManualExit,
    OutOfCard,
}

impl AnswerStatus {
    /// Toggle between showing and hiding.
    pub fn flip(self) -> (r: Self)
        ensures
            r == match self {
                AnswerStatus::Show => AnswerStatus::Hide,
                AnswerStatus::Hide => AnswerStatus::Show,
            },
    {
        match self {
            AnswerStatus::Show => AnswerStatus::Hide,
            AnswerStatus::Hide => AnswerStatus::Show,
        }
    }
}

/// How many line-feed bytes a text holds.
pub open spec fn nl_count(b: Seq<u8>) -> int
    decreases b.len(),
{
    if b.len() == 0 {
        0
    } else if b.last() == 10 {
        nl_count(b.drop_last()) + 1
    } else {
        nl_count(b.drop_last())
    }
}

/// The byte length of the trailing line of a text.
pub open spec fn last_line_len(b: Seq<u8>) -> int
    decreases b.len(),
{
    if b.len() == 0 {
        0
    } else if b.last() == 10 {
        0
    } else {
        last_line_len(b.drop_last()) + 1
    }
}

/// The widest line of a text in bytes, with a floor of ten.
pub open spec fn max_line_len(b: Seq<u8>) -> int
    decreases b.len(),
{
    if b.len() == 0 {
        10
    } else if b.last() == 10 {
        max_line_len(b.drop_last())
    } else if last_line_len(b) > max_line_len(b.drop_last()) {
        last_line_len(b)
    } else {
        max_line_len(b.drop_last())
    }
}

/// The screen room a text needs: its height in lines and its width in
/// bytes (floored at ten), counting lines as line-feed-separated.
pub fn get_width_and_height(s: &str) -> (r: (usize, usize))
    requires
        encode_utf8(s@).len() < usize::MAX,
    ensures
        r.0 == nl_count(encode_utf8(s@)) + 1,
        r.1 == max_line_len(encode_utf8(s@)),
{
    let bytes = s.as_bytes_vec();
    let n = bytes.len();
    let mut height: usize = 1;
    let mut width: usize = 10;
    let mut cur: usize = 0;
    let mut i: usize = 0;
    proof {
        assert(bytes@.take(0) =~= Seq::<u8>::empty());
    }
    while i < n
        invariant
            i <= n,
            n == bytes@.len(),
            n < usize::MAX,
            bytes@ == encode_utf8(s@),
            height == nl_count(bytes@.take(i as int)) + 1,
            cur == last_line_len(bytes@.take(i as int)),
            width == max_line_len(bytes@.take(i as int)),
            height <= i + 1,
            cur <= i,
            width <= if i > 10 {
                i as int
            } else {
                10
            },
        decreases n - i,
    {
        proof {
            assert(bytes@.take(i + 1).drop_last() =~= bytes@.take(i as int));
            assert(bytes@.take(i + 1).last() == bytes@[i as int]);
        }
        if bytes[i] == 10 {
            height = height + 1;
            cur = 0;
        } else {
            cur = cur + 1;
            if cur > width {
                width = cur;
            }
        }
        i = i + 1;
    }
    proof {
        assert(bytes@.take(n as int) =~= bytes@);
    }
    (height, width)
}

} // verus!
