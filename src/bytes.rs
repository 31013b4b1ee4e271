//! Copying raw byte strings into and out of buffers.
use vstd::prelude::*;
use vstd::slice::{slice_subrange, slice_to_vec};

use crate::error::Error;

verus! {

/// Result of writing `wire` into a buffer of `room` bytes: the length written,
/// or `Length` when it does not fit.
pub open spec fn write_result(wire: Seq<u8>, room: nat) -> Result<usize, Error> {
    if wire.len() <= room {
        Ok(wire.len() as usize)
    } else {
        Err(Error::Length)
    }
}

/// Result of writing `wire` into a buffer of `room` bytes when `ok` says
/// whether the value can be written at all.
pub open spec fn checked_write(ok: bool, wire: Seq<u8>, room: nat) -> Result<usize, Error> {
    if ok && wire.len() <= room {
        Ok(wire.len() as usize)
    } else {
        Err(Error::Length)
    }
}

/// `n` as a `usize`, or `Length` when it exceeds what a `usize` holds.
pub open spec fn size_result(n: nat) -> Result<usize, Error> {
    if n <= usize::MAX {
        Ok(n as usize)
    } else {
        Err(Error::Length)
    }
}

/// Result of computing the length of `wire`: `Length` only when it exceeds
/// what a `usize` holds.
pub open spec fn len_result(wire: Seq<u8>) -> Result<usize, Error> {
    if wire.len() <= usize::MAX {
        Ok(wire.len() as usize)
    } else {
        Err(Error::Length)
    }
}

/// What a buffer holds after `wire` was written at its start.
pub open spec fn written(old_buf: Seq<u8>, wire: Seq<u8>) -> Seq<u8> {
    wire + old_buf.skip(wire.len() as int)
}

/// Copies `src` to the start of `buf`; fails with `Length`, writing nothing,
/// when `buf` is shorter than `src`.
pub fn put_bytes(buf: &mut [u8], src: &[u8]) -> (r: Result<usize, Error>)
    ensures
        r == write_result(src@, old(buf)@.len()),
        r is Ok ==> final(buf)@ == written(old(buf)@, src@),
        r is Err ==> final(buf)@ == old(buf)@,
{
    if buf.len() < src.len() {
        return Err(Error::Length);
    }
    let mut i: usize = 0;
    while i < src.len()
        invariant
            i <= src@.len(),
            src@.len() <= old(buf)@.len(),
            buf@.len() == old(buf)@.len(),
            forall|j: int| 0 <= j < i ==> buf@[j] == src@[j],
            forall|j: int| src@.len() <= j < buf@.len() ==> buf@[j] == old(buf)@[j],
        decreases src@.len() - i,
    {
        buf[i] = src[i];
        i = i + 1;
    }
    assert(buf@ =~= written(old(buf)@, src@));
    Ok(src.len())
}

/// A copy of the first `len` bytes of `buf`.
pub fn take_bytes(buf: &[u8], len: usize) -> (r: Vec<u8>)
    requires
        len <= buf@.len(),
    ensures
        r@ == buf@.take(len as int),
{
    slice_to_vec(slice_subrange(buf, 0, len))
}

/// The bytes of `buf` from `pos` on.
pub fn tail(buf: &[u8], pos: usize) -> (r: &[u8])
    requires
        pos <= buf@.len(),
    ensures
        r@ == buf@.skip(pos as int),
{
    slice_subrange(buf, pos, buf.len())
}

} // verus!
