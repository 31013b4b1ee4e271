//! A round-trip check for any reversible codec.
use vstd::prelude::*;
use vstd::slice::slice_subrange;

use crate::wire::{DecodeOwned, EncDecOwned, Encode};

verus! {

/// Encodes `v` into `buff`, checks that the length written is the length
/// `encode_len` computes, and decodes it back from exactly those bytes.
/// Returns the decoded value and the length decoded: the value is `v` and the
/// length is the one written.
pub fn test_encode_decode<T: EncDecOwned>(buff: &mut [u8], v: T) -> (r: (T, usize))
    requires
        v.spec_wire().len() <= old(buff)@.len(),
    ensures
        r.0 == v,
        r.1 == v.spec_wire().len(),
        final(buff)@.take(r.1 as int) == v.spec_wire(),
        final(buff)@.skip(r.1 as int) == old(buff)@.skip(r.1 as int),
{
    let room = buff.len();
    let encoded = v.encode(buff);
    let encoded_len = encoded.unwrap();
    let expected = v.encode_len();
    assert(expected == Ok::<usize, crate::error::Error>(encoded_len));
    let body = slice_subrange(buff, 0, encoded_len);
    proof {
        v.lemma_round_trip(Seq::empty());
        assert(body@ =~= v.spec_wire() + Seq::<u8>::empty());
    }
    let decoded = T::decode_owned(body);
    let r = decoded.unwrap();
    proof {
        assert(buff@.take(encoded_len as int) =~= v.spec_wire());
        assert(buff@.skip(encoded_len as int) =~= old(buff)@.skip(encoded_len as int));
    }
    r
}

} // verus!
