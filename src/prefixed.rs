//! Length-prefixed values: the body's encoded length written first as an
//! integer of the prefix type, then the body.
use vstd::prelude::*;
use vstd::slice::slice_subrange;

use crate::bytes::{write_result, written};
use crate::error::Error;
use crate::wire::{decodes_as, Decode, Encode, FixedInt};

verus! {

/// The prefixed encoding of a body whose bytes are `body`.
pub open spec fn prefixed_wire<P: FixedInt>(body: Seq<u8>) -> Seq<u8> {
    P::kind().wire(body.len() as int) + body
}

/// What decoding a prefixed `T` from the start of `buf` gives: the prefix is
/// read first, then the body from exactly that many bytes.
pub open spec fn prefixed_decode<'a, P: FixedInt, T: Decode<'a>>(buf: Seq<u8>) -> Result<
    (T::Output, nat),
    Error,
> {
    let k = P::kind();
    let w = k.spec_width();
    if buf.len() < w {
        Err(Error::Length)
    } else {
        let l = k.value_of(buf);
        if l < 0 || w + l > buf.len() {
            Err(Error::Length)
        } else {
            match T::spec_decode_view(buf.subrange(w as int, w + l)) {
                Ok((v, n)) => Ok((v, w + n)),
                Err(e) => Err(e),
            }
        }
    }
}

/// Encoding with a length prefix of type `P`.
pub trait EncodePrefixed<P: FixedInt>: Encode {
    /// Writes the body's length as a `P`, then the body; fails with `Length`
    /// when the length does not fit a `P` or the buffer is too short.
    fn encode_prefixed(&self, buff: &mut [u8]) -> (r: Result<usize, Error>)
        ensures
            self.spec_wire().len() > P::kind().max_value() ==> r == Err::<usize, Error>(
                Error::Length,
            ),
            self.spec_wire().len() <= P::kind().max_value() ==> r == write_result(
                prefixed_wire::<P>(self.spec_wire()),
                old(buff)@.len(),
            ),
            r is Ok ==> final(buff)@ == written(old(buff)@, prefixed_wire::<P>(self.spec_wire())),
            final(buff)@.len() == old(buff)@.len(),
    ;
}

impl<P: FixedInt, T: Encode> EncodePrefixed<P> for T {
    fn encode_prefixed(&self, buff: &mut [u8]) -> (r: Result<usize, Error>) {
        let blen = buff.len();
        let k = P::int_kind();
        proof {
            k.lemma_modulus();
        }
        let n = match self.encode_len() {
            Ok(n) => n,
            Err(e) => {
                return Err(e);
            },
        };
        if n as i128 > k.max_value_exec() {
            return Err(Error::Length);
        }
        let w = k.width();
        proof {
            k.lemma_wire_len(n as int);
        }
        if buff.len() < w {
            return Err(Error::Length);
        }
        let len = P::from_i128(n as i128);
        let _ = len.encode(buff);
        let (head, rest) = buff.split_at_mut(w);
        let ghost h0 = head@;
        let res = self.encode(rest);
        proof {
            assert(buff@ == head@ + rest@);
            assert(head@ == h0);
        }
        let m = match res {
            Ok(m) => m,
            Err(e) => {
                return Err(e);
            },
        };
        proof {
            assert(buff@ =~= written(old(buff)@, prefixed_wire::<P>(self.spec_wire())));
        }
        Ok(w + m)
    }
}

/// Decoding with a length prefix of type `P`.
pub trait DecodePrefixed<'a, P: FixedInt>: Decode<'a> {
    /// Reads the prefix, then decodes the body from exactly that many bytes;
    /// fails with `Length` when the prefix is negative or runs past the end.
    fn decode_prefixed(buff: &'a [u8]) -> (r: Result<(Self::Output, usize), Error>)
        ensures
            decodes_as(r, prefixed_decode::<'a, P, Self>(buff@)),
    ;
}

impl<'a, P: FixedInt, T: Decode<'a>> DecodePrefixed<'a, P> for T {
    fn decode_prefixed(buff: &'a [u8]) -> (r: Result<(T::Output, usize), Error>) {
        let k = P::int_kind();
        let (l, w) = match k.decode_int(buff) {
            Ok(p) => p,
            Err(e) => {
                return Err(e);
            },
        };
        if l < 0 || l > (buff.len() - w) as i128 {
            return Err(Error::Length);
        }
        let body = slice_subrange(buff, w, w + l as usize);
        match T::decode(body) {
            Ok((v, n)) => Ok((v, w + n)),
            Err(e) => Err(e),
        }
    }
}

} // verus!
