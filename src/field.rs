//! Each field type's own codec: length, encode and decode of one value, and
//! the decode of a byte string or text whose length a sibling supplies.
use vstd::prelude::*;
use vstd::slice::slice_subrange;
use vstd::utf8::encode_utf8_decode_utf8;

use crate::bytes::{checked_write, len_result, put_bytes, tail, take_bytes, written};
use crate::error::Error;
use crate::primitives::IntKind;
use crate::schema::{
    fits, plain_decode, plain_encodable, plain_wire, tagged_decode, FieldType, Value, ValueModel,
};
use crate::sequence::{
    all_in_range,
    decode_greedy_exec, decode_ints_exec, encode_ints, lemma_ints_wire_len, put_int_at,
};
use crate::tagged::utf8_text;

verus! {

/// `r` agrees with the decoding `spec`.
pub open spec fn decoded_as(
    r: Result<(Value, usize), Error>,
    spec: Result<(ValueModel, nat), Error>,
) -> bool {
    match r {
        Ok((v, n)) => spec == Ok::<(ValueModel, nat), Error>((v@, n as nat)),
        Err(e) => spec == Err::<(ValueModel, nat), Error>(e),
    }
}

/// Whether every element of `s` is a value of `k`.
pub fn ints_fit(k: IntKind, s: &Vec<i128>) -> (r: bool)
    ensures
        r == all_in_range(k, s@),
{
    let mut i: usize = 0;
    while i < s.len()
        invariant
            i <= s@.len(),
            forall|j: int| 0 <= j < i ==> k.in_range(#[trigger] s@[j] as int),
        decreases s@.len() - i,
    {
        if !k.fits_exec(s[i]) {
            return false;
        }
        i = i + 1;
    }
    true
}

/// Whether `v` is a value of type `ty`.
pub fn fits_exec(ty: FieldType, v: &Value) -> (r: bool)
    ensures
        r == fits(ty, v@),
{
    match (ty, v) {
        (FieldType::Int(k), Value::Int(x)) => k.fits_exec(*x),
        (FieldType::Array(k, n), Value::Ints(s)) => s.len() == n && ints_fit(k, s),
        (FieldType::Greedy(k), Value::Ints(s)) => ints_fit(k, s),
        (FieldType::Bytes, Value::Bytes(_)) => true,
        (FieldType::Text, Value::Text(_)) => true,
        (FieldType::Prefixed(_), Value::Bytes(_)) => true,
        (FieldType::Record, Value::Record(_)) => true,
        (FieldType::List, Value::List(_)) => true,
        _ => false,
    }
}

/// Length of the encoding of `v` by the type's own codec.
pub fn plain_len(ty: FieldType, v: &Value) -> (r: Result<usize, Error>)
    requires
        fits(ty, v@),
    ensures
        r == len_result(plain_wire(ty, v@)),
{
    match (ty, v) {
        (FieldType::Int(k), Value::Int(x)) => {
            proof {
                k.lemma_wire_len(*x as int);
            }
            Ok(k.width())
        },
        (FieldType::Array(k, _), Value::Ints(s)) | (FieldType::Greedy(k), Value::Ints(s)) => {
            let w = k.width();
            proof {
                k.lemma_modulus();
                lemma_ints_wire_len(k, s@);
            }
            if s.len() > usize::MAX / w {
                proof {
                    let n = s@.len();
                    let w = w as nat;
                    let m = usize::MAX as nat;
                    assert(n * w > m) by (nonlinear_arith)
                        requires
                            n > m / w,
                            w >= 1,
                    ;
                }
                Err(Error::Length)
            } else {
                proof {
                    let n = s@.len();
                    let w = w as nat;
                    let m = usize::MAX as nat;
                    assert(n * w <= m) by (nonlinear_arith)
                        requires
                            n <= m / w,
                            w >= 1,
                    ;
                }
                Ok(s.len() * w)
            }
        },
        (FieldType::Bytes, Value::Bytes(b)) => Ok(b.len()),
        (FieldType::Text, Value::Text(s)) => Ok(s.as_str().as_bytes().len()),
        (FieldType::Prefixed(k), Value::Bytes(b)) => {
            let w = k.width();
            proof {
                k.lemma_wire_len(b@.len() as int);
            }
            if b.len() > usize::MAX - w {
                Err(Error::Length)
            } else {
                Ok(w + b.len())
            }
        },
        (FieldType::Record, _) | (FieldType::List, _) => Ok(0),
        _ => Err(Error::Length),
    }
}

/// Encodes `v` with the type's own codec at the start of `buf`.
pub fn encode_plain(ty: FieldType, v: &Value, buf: &mut [u8]) -> (r: Result<usize, Error>)
    requires
        fits(ty, v@),
    ensures
        r == checked_write(plain_encodable(ty, v@), plain_wire(ty, v@), old(buf)@.len()),
        r is Ok ==> final(buf)@ == written(old(buf)@, plain_wire(ty, v@)),
        r is Err ==> final(buf)@ == old(buf)@,
        final(buf)@.len() == old(buf)@.len(),
{
    match (ty, v) {
        (FieldType::Int(k), Value::Int(x)) => {
            proof {
                k.lemma_wire_len(*x as int);
            }
            k.encode_int(*x, buf)
        },
        (FieldType::Array(k, _), Value::Ints(s)) | (FieldType::Greedy(k), Value::Ints(s)) => {
            encode_ints(k, s.as_slice(), buf)
        },
        (FieldType::Bytes, Value::Bytes(b)) => put_bytes(buf, b.as_slice()),
        (FieldType::Text, Value::Text(s)) => put_bytes(buf, s.as_str().as_bytes()),
        (FieldType::Prefixed(k), Value::Bytes(b)) => {
            let w = k.width();
            let len = b.len();
            proof {
                k.lemma_modulus();
                k.lemma_wire_len(len as int);
            }
            if len as i128 > k.max_value_exec() {
                return Err(Error::Length);
            }
            if buf.len() < w || len > buf.len() - w {
                return Err(Error::Length);
            }
            put_int_at(k, len as i128, buf, 0);
            let (_head, rest) = buf.split_at_mut(w);
            let _ = put_bytes(rest, b.as_slice());
            proof {
                let wire = plain_wire(ty, v@);
                assert(wire == k.wire(len as int) + b@);
                assert(final(buf)@ =~= written(old(buf)@, wire));
            }
            Ok(w + len)
        },
        (FieldType::Record, _) | (FieldType::List, _) => {
            proof {
                assert(buf@ =~= written(old(buf)@, seq![]));
            }
            Ok(0)
        },
        _ => Err(Error::Length),
    }
}

/// Decodes a value of type `ty` with the type's own codec from the start of
/// `buf`.
pub fn decode_plain(ty: FieldType, buf: &[u8]) -> (r: Result<(Value, usize), Error>)
    ensures
        decoded_as(r, plain_decode(ty, buf@)),
        r matches Ok((_, n)) ==> n <= buf@.len(),
{
    match ty {
        FieldType::Int(k) => match k.decode_int(buf) {
            Ok((x, n)) => Ok((Value::Int(x), n)),
            Err(e) => Err(e),
        },
        FieldType::Array(k, count) => {
            proof {
                k.lemma_modulus();
            }
            match decode_ints_exec(k, buf, count) {
                Ok((s, n)) => {
                    proof {
                        crate::sequence::lemma_decode_ints_len(k, buf@, count as nat);
                    }
                    Ok((Value::Ints(s), n))
                },
                Err(e) => Err(e),
            }
        },
        FieldType::Greedy(k) => match decode_greedy_exec(k, buf) {
            Ok((s, n)) => Ok((Value::Ints(s), n)),
            Err(e) => Err(e),
        },
        FieldType::Prefixed(k) => {
            let w = k.width();
            match k.decode_int(buf) {
                Ok((l, _)) => {
                    if l < 0 || l > (buf.len() - w) as i128 {
                        return Err(Error::Length);
                    }
                    let body = take_bytes(tail(buf, w), l as usize);
                    proof {
                        assert(body@ =~= buf@.subrange(w as int, w + l));
                    }
                    Ok((Value::Bytes(body), w + l as usize))
                },
                Err(e) => Err(e),
            }
        },
        _ => Err(Error::Length),
    }
}

/// Decodes a byte string or text of type `ty` that is exactly the first `x`
/// bytes of `buf`.
pub fn decode_tagged(ty: FieldType, buf: &[u8], x: i128) -> (r: Result<(Value, usize), Error>)
    ensures
        decoded_as(
            r,
            if x < 0 || x > buf@.len() {
                Err(Error::Length)
            } else {
                tagged_decode(ty, buf@.take(x as int))
            },
        ),
        r matches Ok((_, n)) ==> n <= buf@.len(),
{
    if x < 0 || x > buf.len() as i128 {
        return Err(Error::Length);
    }
    let len = x as usize;
    match ty {
        FieldType::Bytes => Ok((Value::Bytes(take_bytes(buf, len)), len)),
        FieldType::Text => {
            let body = slice_subrange(buf, 0, len);
            match utf8_text(body) {
                Some(s) => {
                    let owned = s.to_owned();
                    proof {
                        encode_utf8_decode_utf8(s@);
                        assert(body@ =~= buf@.take(x as int));
                    }
                    Ok((Value::Text(owned), len))
                },
                None => {
                    proof {
                        assert(body@ =~= buf@.take(x as int));
                    }
                    Err(Error::Utf8)
                },
            }
        },
        _ => Err(Error::Length),
    }
}

} // verus!
