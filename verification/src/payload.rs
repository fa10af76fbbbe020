//! The payload store: the translation text of a dictionary, owned as one
//! blob that is decoded (decompressed if the source is compressed, then
//! UTF-8 checked) exactly once, and served as byte-range slices.  The
//! decode-once discipline is an explicit cache: a second materialization
//! returns the cached text and observably does not decode again.

use vstd::prelude::*;
use vstd::string::StringSliceAdditionalSpecFns;
use vstd::utf8::{decode_utf8, encode_utf8, is_char_boundary, valid_utf8};

use crate::error::Error;
use crate::text::utf8_decode;

verus! {

/// What gunzip makes of a byte string: `None` exactly when the bytes are
/// not a well-formed gzip stream.  The result depends on the bytes alone.
pub uninterp spec fn gunzip_of(bytes: Seq<u8>) -> Option<Seq<u8>>;

/// Relies on flate2's `read::GzDecoder` to inflate a gzip blob.
#[verifier::external_body]
fn gunzip(b: &Vec<u8>) -> (r: Option<Vec<u8>>)
    ensures
        match r {
            Some(v) => gunzip_of(b@) == Some(v@),
            None => gunzip_of(b@) is None,
        },
{
    let mut d = flate2::read::GzDecoder::new(b.as_slice());
    let mut out: Vec<u8> = Vec::new();
    match std::io::Read::read_to_end(&mut d, &mut out) {
        Ok(_) => Some(out),
        Err(_) => None,
    }
}

/// The decoded byte content a payload source stands for: the source
/// itself when plain, its inflation when compressed.
pub open spec fn plain_of(raw: Seq<u8>, compressed: bool) -> Option<Seq<u8>> {
    if compressed {
        gunzip_of(raw)
    } else {
        Some(raw)
    }
}

/// The text a payload source stands for, when its bytes decompress and
/// decode as UTF-8.
pub open spec fn decoded_of(raw: Seq<u8>, compressed: bool) -> Option<Seq<char>> {
    match plain_of(raw, compressed) {
        None => None,
        Some(bytes) => if valid_utf8(bytes) {
            Some(decode_utf8(bytes))
        } else {
            None
        },
    }
}

/// The decode-once cache.
#[derive(Debug)]
enum PayloadState {
    /// Not yet decoded.
    Pending,
    /// Decoded successfully.
    Ready(String),
    /// Decoding failed; it would fail again, so the failure is cached too.
    Failed,
}

/// The dictionary's translation payload.
#[derive(Debug)]
pub struct PayloadStore {
    raw: Vec<u8>,
    compressed: bool,
    state: PayloadState,
    decode_count: u64,
}

impl PayloadStore {
    #[verifier::type_invariant]
    spec fn wf(self) -> bool {
        &&& match self.state {
            PayloadState::Pending => true,
            PayloadState::Ready(s) => {
                &&& decoded_of(self.raw@, self.compressed) == Some(s@)
                &&& plain_of(self.raw@, self.compressed) == Some(encode_utf8(s@))
                &&& encode_utf8(s@).len() <= usize::MAX
                &&& self.decode_count == 1
            },
            PayloadState::Failed => {
                &&& decoded_of(self.raw@, self.compressed) is None
                &&& self.decode_count == 1
            },
        }
    }

    /// The stored source bytes.
    pub closed spec fn raw_bytes(&self) -> Seq<u8> {
        self.raw@
    }

    /// Whether the source is treated as gzip-compressed.
    pub closed spec fn is_compressed(&self) -> bool {
        self.compressed
    }

    /// Whether the payload text is decoded and cached.
    pub closed spec fn is_materialized(&self) -> bool {
        self.state is Ready
    }

    /// The cached payload text.
    pub closed spec fn contents(&self) -> Seq<char> {
        self.state->Ready_0@
    }

    /// The cached payload text, as the bytes that slices index into.
    pub open spec fn content_bytes(&self) -> Seq<u8> {
        encode_utf8(self.contents())
    }

    /// How many times decoding has actually run: the instrumentation point
    /// for the decode-once discipline.
    pub closed spec fn decode_invocations(&self) -> int {
        self.decode_count as int
    }

    /// How many times decoding has run so far.
    pub fn invocations(&self) -> (r: u64)
        ensures
            r as int == self.decode_invocations(),
    {
        self.decode_count
    }

    /// Wrap a payload source, deferring every byte of work.
    pub fn new(raw: Vec<u8>, compressed: bool) -> (r: PayloadStore)
        ensures
            r.raw_bytes() == raw@,
            r.is_compressed() == compressed,
            !r.is_materialized(),
            r.decode_invocations() == 0,
    {
        PayloadStore { raw, compressed, state: PayloadState::Pending, decode_count: 0 }
    }

    /// Decode the payload, or hand back what an earlier call produced.
    /// Decoding runs at most once over the store's whole life: after the
    /// first call, the invocation count stays at one and the outcome,
    /// content included, never changes again.
    pub fn materialize(&mut self) -> (r: Result<(), Error>)
        ensures
            final(self).raw_bytes() == old(self).raw_bytes(),
            final(self).is_compressed() == old(self).is_compressed(),
            old(self).is_materialized() ==> *final(self) == *old(self),
            final(self).decode_invocations() == 1,
            r is Ok <==> decoded_of(old(self).raw_bytes(), old(self).is_compressed()) is Some,
            r is Ok <==> final(self).is_materialized(),
            r is Ok ==> Some(final(self).contents()) == decoded_of(
                old(self).raw_bytes(),
                old(self).is_compressed(),
            ) && Some(final(self).content_bytes()) == plain_of(
                old(self).raw_bytes(),
                old(self).is_compressed(),
            ),
            r is Err ==> r == Err::<(), Error>(Error::DecodeError),
    {
        proof {
            use_type_invariant(&*self);
        }
        match &self.state {
            PayloadState::Ready(_) => Ok(()),
            PayloadState::Failed => Err(Error::DecodeError),
            PayloadState::Pending => {
                self.decode_count = 1;
                let plain: Option<Vec<u8>> = if self.compressed {
                    gunzip(&self.raw)
                } else {
                    let copy = clone_bytes(&self.raw);
                    Some(copy)
                };
                match plain {
                    None => {
                        self.state = PayloadState::Failed;
                        Err(Error::DecodeError)
                    },
                    Some(bytes) => {
                        let ghost plain_bytes = bytes@;
                        let byte_count = bytes.len();
                        assert(plain_bytes.len() == byte_count);
                        match utf8_decode(bytes) {
                            Some(s) => {
                                proof {
                                    vstd::utf8::decode_utf8_encode_utf8(plain_bytes);
                                }
                                self.state = PayloadState::Ready(s);
                                Ok(())
                            },
                            None => {
                                self.state = PayloadState::Failed;
                                Err(Error::DecodeError)
                            },
                        }
                    },
                }
            },
        }
    }

    /// The byte length of the materialized payload.
    pub fn byte_len(&self) -> (r: usize)
        requires
            self.is_materialized(),
        ensures
            r == self.content_bytes().len(),
    {
        proof {
            use_type_invariant(self);
        }
        match &self.state {
            PayloadState::Ready(s) => s.as_str().len(),
            _ => {
                proof {
                    assert(false);
                }
                0
            },
        }
    }

    /// Whether a byte position of the materialized payload falls on a
    /// character boundary.
    pub fn boundary_at(&self, pos: usize) -> (r: bool)
        requires
            self.is_materialized(),
        ensures
            r == is_char_boundary(self.content_bytes(), pos as int),
    {
        proof {
            use_type_invariant(self);
        }
        match &self.state {
            PayloadState::Ready(s) => s.as_str().is_char_boundary(pos),
            _ => {
                proof {
                    assert(false);
                }
                false
            },
        }
    }

    /// A byte-range slice of the materialized payload.  Defined only for
    /// ranges that lie inside the payload on character boundaries; the
    /// engine establishes that for every entry it keeps.
    pub fn slice(&self, offset: usize, length: usize) -> (r: String)
        requires
            self.is_materialized(),
            offset + length <= self.content_bytes().len(),
            is_char_boundary(self.content_bytes(), offset as int),
            is_char_boundary(self.content_bytes(), offset + length),
        ensures
            encode_utf8(r@) == self.content_bytes().subrange(offset as int, offset + length),
    {
        proof {
            use_type_invariant(self);
        }
        match &self.state {
            PayloadState::Ready(s) => {
                let whole: &str = s.as_str();
                let ghost full = self.content_bytes();
                proof {
                    vstd::utf8::encode_utf8_valid_utf8(s@);
                    vstd::utf8::valid_utf8_split(full, offset as int);
                    let tail_bytes = full.subrange(offset as int, full.len() as int);
                    vstd::utf8::is_char_boundary_start_end_of_seq(full);
                    vstd::utf8::is_char_boundary_start_end_of_seq(tail_bytes);
                    if offset + length < full.len() {
                        vstd::utf8::is_char_boundary_iff_not_is_continuation_byte(
                            full,
                            offset + length,
                        );
                        vstd::utf8::is_char_boundary_iff_not_is_continuation_byte(
                            tail_bytes,
                            length as int,
                        );
                        assert(tail_bytes[length as int] == full[offset + length]);
                    }
                }
                let (_, tail) = whole.split_at(offset);
                proof {
                    vstd::utf8::valid_utf8_split(full.subrange(offset as int, full.len() as int), length as int);
                }
                let (mid, _) = tail.split_at(length);
                proof {
                    assert(mid.spec_bytes() =~= self.content_bytes().subrange(
                        offset as int,
                        offset + length,
                    ));
                }
                mid.to_owned()
            },
            _ => {
                proof {
                    assert(false);
                }
                String::new()
            },
        }
    }
}

/// A byte-for-byte copy of a buffer.
fn clone_bytes(b: &Vec<u8>) -> (r: Vec<u8>)
    ensures
        r@ == b@,
{
    let mut r: Vec<u8> = Vec::new();
    let n = b.len();
    let mut i: usize = 0;
    while i < n
        invariant
            i <= n,
            n == b@.len(),
            r@ == b@.take(i as int),
        decreases n - i,
    {
        r.push(b[i]);
        i = i + 1;
        assert(r@ =~= b@.take(i as int));
    }
    assert(b@.take(n as int) =~= b@);
    r
}

} // verus!
