//! Decoding of fields whose length is given from outside, by a sibling field.
use vstd::prelude::*;
use vstd::slice::slice_subrange;
use vstd::string::StringSliceAdditionalSpecFns;
use vstd::utf8::valid_utf8;

use crate::error::Error;

verus! {

/// Relies on `core::str::from_utf8`: it succeeds exactly on valid UTF-8, and
/// the text it returns has exactly the given bytes.
#[verifier::external_body]
pub(crate) fn utf8_text(b: &[u8]) -> (r: Option<&str>)
    ensures
        r is Some <==> valid_utf8(b@),
        r matches Some(s) ==> s.spec_bytes() == b@,
{
    match core::str::from_utf8(b) {
        Ok(s) => Some(s),
        Err(_) => None,
    }
}

/// Decoding of a value whose length is supplied by the caller rather than
/// found in the bytes.
pub trait DecodedTagged<'a>: Sized {
    /// The decoded value, which may borrow from the buffer.
    type Output;

    /// The byte strings that form a value.
    spec fn accepts(bytes: Seq<u8>) -> bool;

    /// The bytes a decoded value was made from.
    spec fn bytes_of(out: Self::Output) -> Seq<u8>;

    /// Decodes exactly the first `len` bytes of `buf`.
    fn decode_len(buf: &'a [u8], len: usize) -> (r: Result<Self::Output, Error>)
        ensures
            buf@.len() < len ==> r == Err::<Self::Output, Error>(Error::Length),
            buf@.len() >= len && Self::accepts(buf@.take(len as int)) ==> (r matches Ok(o)
                && Self::bytes_of(o) == buf@.take(len as int)),
            buf@.len() >= len && !Self::accepts(buf@.take(len as int)) ==> r == Err::<
                Self::Output,
                Error,
            >(Error::Utf8),
    ;
}

/// Raw bytes: any byte string is a value, borrowed from the buffer.
impl<'a> DecodedTagged<'a> for &'a [u8] {
    type Output = &'a [u8];

    open spec fn accepts(bytes: Seq<u8>) -> bool {
        true
    }

    open spec fn bytes_of(out: &'a [u8]) -> Seq<u8> {
        out@
    }

    fn decode_len(buf: &'a [u8], len: usize) -> (r: Result<&'a [u8], Error>) {
        if buf.len() < len {
            return Err(Error::Length);
        }
        Ok(slice_subrange(buf, 0, len))
    }
}

/// Text: the bytes must be valid UTF-8, else the decode fails with `Utf8`.
impl<'a> DecodedTagged<'a> for &'a str {
    type Output = &'a str;

    open spec fn accepts(bytes: Seq<u8>) -> bool {
        valid_utf8(bytes)
    }

    open spec fn bytes_of(out: &'a str) -> Seq<u8> {
        out.spec_bytes()
    }

    fn decode_len(buf: &'a [u8], len: usize) -> (r: Result<&'a str, Error>) {
        if buf.len() < len {
            return Err(Error::Length);
        }
        let body = slice_subrange(buf, 0, len);
        match utf8_text(body) {
            Some(s) => Ok(s),
            None => Err(Error::Utf8),
        }
    }
}

} // verus!
