//! The base error kinds of encoding and decoding.
use vstd::prelude::*;

verus! {

/// Basic encode/decode error type.
#[derive(Copy, Clone, PartialEq, Eq, Structural, Debug)]
pub enum Error {
    /// The buffer is too short, on encode or on decode.
    Length,
    /// The bytes of a text field are not valid UTF-8.
    Utf8,
}

/// `r` is `base` with its error, if any, turned into an `E` by `E::from`.
pub open spec fn converted<T, E: From<Error>>(base: Result<T, Error>, r: Result<T, E>) -> bool {
    match base {
        Ok(v) => r == Ok::<T, E>(v),
        Err(e) => r matches Err(x) && call_ensures(E::from, (e,), x),
    }
}

/// Reports a failure in a replacement error type `E`, through its conversion
/// from the base kinds.
pub fn convert_error<T, E: From<Error>>(base: Result<T, Error>) -> (r: Result<T, E>)
    ensures
        converted(base, r),
{
    match base {
        Ok(v) => Ok(v),
        Err(e) => Err(E::from(e)),
    }
}

} // verus!
