//! Sequences of encodable values: concatenated encoding, fixed-count and
//! greedy decoding, and a cursor that decodes one element at a time.
use core::marker::PhantomData;
use vstd::prelude::*;
use vstd::string::StringSliceAdditionalSpecFns;

use crate::bytes::{len_result, tail, write_result, written};
use crate::error::Error;
use crate::wire::{Decode, EncDec, Encode};

verus! {

/// The concatenated encodings of `items`.
pub open spec fn concat_wire<T: Encode>(items: Seq<T>) -> Seq<u8>
    decreases items.len(),
{
    if items.len() == 0 {
        seq![]
    } else {
        items[0].spec_wire() + concat_wire(items.drop_first())
    }
}

/// Greedy decoding: elements one after another until `buf` is exactly
/// exhausted. An element that fails, runs past the end, or takes no bytes at
/// all (and so cannot delimit itself) fails the whole decode.
pub open spec fn greedy_of<'a, T: Decode<'a>>(buf: Seq<u8>) -> Result<Seq<T::Output>, Error>
    decreases buf.len(),
{
    if buf.len() == 0 {
        Ok(seq![])
    } else {
        match T::spec_decode_view(buf) {
            Ok((v, n)) => if n == 0 || n > buf.len() {
                Err(Error::Length)
            } else {
                match greedy_of::<'a, T>(buf.skip(n as int)) {
                    Ok(s) => Ok(seq![v] + s),
                    Err(e) => Err(e),
                }
            },
            Err(e) => Err(e),
        }
    }
}

/// Decoding of exactly `count` elements, each from the bytes the previous
/// ones left; the values and the total length taken.
pub open spec fn count_of<'a, T: Decode<'a>>(buf: Seq<u8>, count: nat) -> Result<
    (Seq<T::Output>, nat),
    Error,
>
    decreases count,
{
    if count == 0 {
        Ok((seq![], 0))
    } else {
        match T::spec_decode_view(buf) {
            Ok((v, n)) => if n > buf.len() {
                Err(Error::Length)
            } else {
                match count_of::<'a, T>(buf.skip(n as int), (count - 1) as nat) {
                    Ok((s, m)) => Ok((seq![v] + s, n + m)),
                    Err(e) => Err(e),
                }
            },
            Err(e) => Err(e),
        }
    }
}

proof fn lemma_concat_wire_skip<T: Encode>(items: Seq<T>, i: int)
    requires
        0 <= i < items.len(),
    ensures
        concat_wire(items.skip(i)) == items[i].spec_wire() + concat_wire(items.skip(i + 1)),
{
    assert(items.skip(i).drop_first() =~= items.skip(i + 1));
}

/// Greedy sequence decode: `K` concatenated self-delimiting elements decode
/// back to exactly those `K` elements, in order, taking the whole buffer.
pub proof fn lemma_greedy_round_trip<'a, T: EncDec<'a>>(items: Seq<T>)
    requires
        forall|i: int| 0 <= i < items.len() ==> (#[trigger] items[i]).spec_wire().len() > 0,
    ensures
        greedy_of::<'a, T>(concat_wire(items)) == Ok::<Seq<T>, Error>(items),
    decreases items.len(),
{
    if items.len() > 0 {
        let w = items[0].spec_wire();
        let more = concat_wire(items.drop_first());
        items[0].lemma_encdec_round_trip(more);
        assert(items[0].spec_wire().len() > 0);
        assert((w + more).skip(w.len() as int) =~= more);
        assert forall|i: int| 0 <= i < items.drop_first().len() implies (
        #[trigger] items.drop_first()[i]).spec_wire().len() > 0 by {
            assert(items.drop_first()[i] == items[i + 1]);
        }
        lemma_greedy_round_trip::<'a, T>(items.drop_first());
        assert(seq![items[0]] + items.drop_first() =~= items);
    } else {
        assert(items =~= Seq::<T>::empty());
    }
}

/// Sum of the encoded lengths of `items`.
pub fn encode_len_all<T: Encode>(items: &[T]) -> (r: Result<usize, Error>)
    ensures
        r == len_result(concat_wire(items@)),
{
    let mut total: usize = 0;
    let mut i: usize = 0;
    assert(items@.skip(0) =~= items@);
    while i < items.len()
        invariant
            i <= items@.len(),
            concat_wire(items@).len() == total + concat_wire(items@.skip(i as int)).len(),
        decreases items@.len() - i,
    {
        proof {
            lemma_concat_wire_skip(items@, i as int);
        }
        let n = match items[i].encode_len() {
            Ok(n) => n,
            Err(e) => {
                return Err(e);
            },
        };
        if total > usize::MAX - n {
            return Err(Error::Length);
        }
        total = total + n;
        i = i + 1;
    }
    assert(items@.skip(i as int) =~= seq![]);
    Ok(total)
}

/// Encodes `items` one after another at the start of `buf`, stopping at the
/// first that does not fit; bytes already written stay.
pub fn encode_each<T: Encode>(items: &[T], buf: &mut [u8]) -> (r: Result<usize, Error>)
    ensures
        r == write_result(concat_wire(items@), old(buf)@.len()),
        r is Ok ==> final(buf)@ == written(old(buf)@, concat_wire(items@)),
        final(buf)@.len() == old(buf)@.len(),
{
    let mut i: usize = 0;
    let mut pos: usize = 0;
    let blen = buf.len();
    assert(items@.skip(0) =~= items@);
    assert(buf@.take(0) + concat_wire(items@) =~= concat_wire(items@));
    while i < items.len()
        invariant
            i <= items@.len(),
            pos <= old(buf)@.len(),
            blen == old(buf)@.len(),
            buf@.len() == old(buf)@.len(),
            concat_wire(items@) == buf@.take(pos as int) + concat_wire(items@.skip(i as int)),
            buf@.skip(pos as int) == old(buf)@.skip(pos as int),
        decreases items@.len() - i,
    {
        proof {
            lemma_concat_wire_skip(items@, i as int);
        }
        let ghost before = buf@;
        let (head, rest) = buf.split_at_mut(pos);
        let ghost h0 = head@;
        let ghost r0 = rest@;
        let res = items[i].encode(rest);
        proof {
            assert(h0 =~= before.take(pos as int));
            assert(r0 =~= before.skip(pos as int));
            assert(buf@ == head@ + rest@);
            assert(head@ == h0);
        }
        let m = match res {
            Ok(m) => m,
            Err(e) => {
                return Err(e);
            },
        };
        proof {
            let w = items@[i as int].spec_wire();
            assert(buf@.take(pos + m) =~= before.take(pos as int) + w);
            assert(buf@.skip(pos + m) =~= old(buf)@.skip(pos + m));
        }
        pos = pos + m;
        i = i + 1;
    }
    proof {
        assert(items@.skip(i as int) =~= seq![]);
        assert(buf@ =~= written(old(buf)@, concat_wire(items@)));
    }
    Ok(pos)
}

/// Encodes `items` one after another at the start of `buf`; fails with
/// `Length`, writing nothing, when their total length exceeds `buf`.
pub fn encode_all<T: Encode>(items: &[T], buf: &mut [u8]) -> (r: Result<usize, Error>)
    ensures
        r == write_result(concat_wire(items@), old(buf)@.len()),
        r is Ok ==> final(buf)@ == written(old(buf)@, concat_wire(items@)),
        r is Err ==> final(buf)@ == old(buf)@,
{
    let blen = buf.len();
    let total = match encode_len_all(items) {
        Ok(n) => n,
        Err(e) => {
            return Err(e);
        },
    };
    if buf.len() < total {
        return Err(Error::Length);
    }
    encode_each(items, buf)
}

/// Decodes exactly `count` elements, each from the bytes the previous ones
/// left; fails at the first element that fails.
pub fn decode_count<'a, T: Decode<'a>>(buf: &'a [u8], count: usize) -> (r: Result<
    (Vec<T::Output>, usize),
    Error,
>)
    ensures
        match count_of::<'a, T>(buf@, count as nat) {
            Ok((s, n)) => (r matches Ok((v, m)) && v@ == s && m == n),
            Err(e) => r == Err::<(Vec<T::Output>, usize), Error>(e),
        },
{
    let mut out: Vec<T::Output> = Vec::new();
    let mut pos: usize = 0;
    let mut i: usize = 0;
    let blen = buf.len();
    proof {
        assert(buf@.skip(0) =~= buf@);
        match count_of::<'a, T>(buf@, count as nat) {
            Ok((s, n)) => {
                assert(out@ + s =~= s);
            },
            Err(_) => {},
        }
    }
    while i < count
        invariant
            i <= count,
            pos <= buf@.len(),
            blen == buf@.len(),
            out@.len() == i,
            count_of::<'a, T>(buf@, count as nat) == match count_of::<'a, T>(
                buf@.skip(pos as int),
                (count - i) as nat,
            ) {
                Ok((s, n)) => Ok::<(Seq<T::Output>, nat), Error>((out@ + s, (pos + n) as nat)),
                Err(e) => Err::<(Seq<T::Output>, nat), Error>(e),
            },
        decreases count - i,
    {
        let rest = tail(buf, pos);
        let (v, n) = match T::decode(rest) {
            Ok(p) => p,
            Err(e) => {
                return Err(e);
            },
        };
        proof {
            assert(rest@.skip(n as int) =~= buf@.skip(pos + n));
            match count_of::<'a, T>(buf@.skip(pos + n), (count - i - 1) as nat) {
                Ok((s, m)) => {
                    assert(out@.push(v) + s =~= out@ + (seq![v] + s));
                },
                Err(_) => {},
            }
        }
        out.push(v);
        pos = pos + n;
        i = i + 1;
    }
    proof {
        assert(out@ + seq![] =~= out@);
    }
    Ok((out, pos))
}

/// Decodes elements one after another until `buf` is exactly exhausted.
pub fn decode_greedy_all<'a, T: Decode<'a>>(buf: &'a [u8]) -> (r: Result<
    (Vec<T::Output>, usize),
    Error,
>)
    ensures
        match greedy_of::<'a, T>(buf@) {
            Ok(s) => (r matches Ok((v, n)) && v@ == s && n == buf@.len()),
            Err(e) => r == Err::<(Vec<T::Output>, usize), Error>(e),
        },
{
    let mut out: Vec<T::Output> = Vec::new();
    let mut pos: usize = 0;
    let blen = buf.len();
    proof {
        assert(buf@.skip(0) =~= buf@);
        match greedy_of::<'a, T>(buf@) {
            Ok(s) => {
                assert(out@ + s =~= s);
            },
            Err(_) => {},
        }
    }
    while pos < buf.len()
        invariant
            pos <= buf@.len(),
            blen == buf@.len(),
            greedy_of::<'a, T>(buf@) == match greedy_of::<'a, T>(buf@.skip(pos as int)) {
                Ok(s) => Ok(out@ + s),
                Err(e) => Err::<Seq<T::Output>, Error>(e),
            },
        decreases buf@.len() - pos,
    {
        let rest = tail(buf, pos);
        let (v, n) = match T::decode(rest) {
            Ok(p) => p,
            Err(e) => {
                return Err(e);
            },
        };
        if n == 0 {
            return Err(Error::Length);
        }
        proof {
            assert(rest@.skip(n as int) =~= buf@.skip(pos + n));
            match greedy_of::<'a, T>(buf@.skip(pos + n)) {
                Ok(s) => {
                    assert(out@.push(v) + s =~= out@ + (seq![v] + s));
                },
                Err(_) => {},
            }
        }
        out.push(v);
        pos = pos + n;
    }
    proof {
        assert(buf@.skip(pos as int) =~= seq![]);
        assert(out@ + seq![] =~= out@);
    }
    Ok((out, pos))
}

/// The outcome `r` of a step from offset `before` to offset `after` agrees
/// with decoding the element there: its value and the offset past it, or its
/// error and the offset unchanged.
pub open spec fn next_matches<T>(
    r: Option<Result<T, Error>>,
    d: Result<(T, nat), Error>,
    before: nat,
    after: nat,
) -> bool {
    match d {
        Ok((v, n)) => r == Some(Ok::<T, Error>(v)) && after == before + n,
        Err(e) => r == Some(Err::<T, Error>(e)) && after == before,
    }
}

/// A cursor over a sized buffer of concatenated, internally delimited
/// elements, decoding one element per call.
#[derive(Debug)]
pub struct DecodeIter<'a, T> {
    buff: &'a [u8],
    index: usize,
    _t: PhantomData<T>,
}

impl<'a, T> DecodeIter<'a, T> {
    /// The buffer walked over.
    pub closed spec fn spec_buff(&self) -> Seq<u8> {
        self.buff@
    }

    /// The offset of the next element.
    pub closed spec fn spec_index(&self) -> nat {
        self.index as nat
    }

    /// A cursor at the start of `buff`.
    pub fn new(buff: &'a [u8]) -> (r: Self)
        ensures
            r.spec_buff() == buff@,
            r.spec_index() == 0,
            r.spec_index() <= r.spec_buff().len(),
    {
        DecodeIter { buff, index: 0, _t: PhantomData }
    }

    /// A copy of this cursor over the same buffer, set back to its start.
    pub fn restart(&self) -> (r: Self)
        ensures
            r.spec_buff() == self.spec_buff(),
            r.spec_index() == 0,
            r.spec_index() <= r.spec_buff().len(),
    {
        DecodeIter { buff: self.buff, index: 0, _t: PhantomData }
    }
}

impl<'a, T: Decode<'a, Output = T>> DecodeIter<'a, T> {

    /// Decodes the next element. `None` once the offset has reached the end
    /// exactly; an element that fails yields its error and the offset stays.
    pub fn next(&mut self) -> (r: Option<Result<T, Error>>)
        requires
            old(self).spec_index() <= old(self).spec_buff().len(),
        ensures
            final(self).spec_index() <= final(self).spec_buff().len(),
            final(self).spec_buff() == old(self).spec_buff(),
            old(self).spec_index() == old(self).spec_buff().len() ==> r is None
                && final(self).spec_index() == old(self).spec_index(),
            old(self).spec_index() < old(self).spec_buff().len() ==> next_matches(
                r,
                T::spec_decode_view(old(self).spec_buff().skip(old(self).spec_index() as int)),
                old(self).spec_index(),
                final(self).spec_index(),
            ),
    {
        if self.index == self.buff.len() {
            return None;
        }
        let rest = tail(self.buff, self.index);
        match T::decode(rest) {
            Ok((v, n)) => {
                self.index = self.index + n;
                Some(Ok(v))
            },
            Err(e) => Some(Err(e)),
        }
    }

}

/// A growable sequence encodes as its elements one after another.
impl<T: Encode> Encode for Vec<T> {
    open spec fn spec_wire(&self) -> Seq<u8> {
        concat_wire(self@)
    }

    fn encode_len(&self) -> (r: Result<usize, Error>) {
        encode_len_all(self.as_slice())
    }

    fn encode(&self, buf: &mut [u8]) -> (r: Result<usize, Error>) {
        encode_all(self.as_slice(), buf)
    }
}

/// A fixed-count array encodes as its elements one after another.
impl<T: Encode, const N: usize> Encode for [T; N] {
    open spec fn spec_wire(&self) -> Seq<u8> {
        concat_wire(self@)
    }

    fn encode_len(&self) -> (r: Result<usize, Error>) {
        encode_len_all(vstd::array::array_as_slice(self))
    }

    fn encode(&self, buf: &mut [u8]) -> (r: Result<usize, Error>) {
        encode_all(vstd::array::array_as_slice(self), buf)
    }
}

/// Text encodes as its UTF-8 bytes, with no length or terminator.
impl<'s> Encode for &'s str {
    open spec fn spec_wire(&self) -> Seq<u8> {
        (*self).spec_bytes()
    }

    fn encode_len(&self) -> (r: Result<usize, Error>) {
        Ok(self.as_bytes().len())
    }

    fn encode(&self, buf: &mut [u8]) -> (r: Result<usize, Error>) {
        crate::bytes::put_bytes(buf, self.as_bytes())
    }
}

/// Decoding helpers for every [`Decode`] type.
pub trait DecodeExt<'a>: Decode<'a> {
    /// A cursor over the elements in `buff`; elements must be delimited
    /// internally, as this decodes greedily.
    fn decode_iter(buff: &'a [u8]) -> (r: DecodeIter<'a, Self::Output>)
        ensures
            r.spec_buff() == buff@,
            r.spec_index() == 0,
            r.spec_index() <= r.spec_buff().len(),
    ;
}

impl<'a, T: Decode<'a>> DecodeExt<'a> for T {
    fn decode_iter(buff: &'a [u8]) -> (r: DecodeIter<'a, T::Output>) {
        DecodeIter::new(buff)
    }
}

/// Encoding helpers for every [`Encode`] type.
pub trait EncodeExt: Encode + Sized {
    /// Encodes `items` one after another at the start of `buff`.
    fn encode_iter(items: &[Self], buff: &mut [u8]) -> (r: Result<usize, Error>)
        ensures
            r == write_result(concat_wire(items@), old(buff)@.len()),
            r is Ok ==> final(buff)@ == written(old(buff)@, concat_wire(items@)),
    ;

    /// Encodes into a new zeroed buffer of `N` bytes.
    fn encode_buff<const N: usize>(&self) -> (r: Result<([u8; N], usize), Error>)
        ensures
            match write_result(self.spec_wire(), N as nat) {
                Ok(n) => (r matches Ok((b, m)) && m == n && b@ == written(
                    Seq::new(N as nat, |i: int| 0u8),
                    self.spec_wire(),
                )),
                Err(e) => r == Err::<([u8; N], usize), Error>(e),
            },
    ;

    /// Encodes into a new buffer sized by `encode_len`.
    fn encode_vec(&self) -> (r: Result<(Vec<u8>, usize), Error>)
        ensures
            len_result(self.spec_wire()) is Ok ==> (r matches Ok((b, n)) && b@ == self.spec_wire()
                && n == self.spec_wire().len()),
            len_result(self.spec_wire()) is Err ==> r is Err,
    ;
}

impl<T: Encode> EncodeExt for T {
    fn encode_iter(items: &[T], buff: &mut [u8]) -> (r: Result<usize, Error>) {
        encode_each(items, buff)
    }

    fn encode_buff<const N: usize>(&self) -> (r: Result<([u8; N], usize), Error>) {
        let mut b = [0u8; N];
        proof {
            assert(b@ =~= Seq::new(N as nat, |i: int| 0u8));
        }
        let n = match self.encode(&mut b) {
            Ok(n) => n,
            Err(e) => {
                return Err(e);
            },
        };
        Ok((b, n))
    }

    fn encode_vec(&self) -> (r: Result<(Vec<u8>, usize), Error>) {
        let n = match self.encode_len() {
            Ok(n) => n,
            Err(e) => {
                return Err(e);
            },
        };
        let mut b: Vec<u8> = vec![0u8; n];
        let m = match self.encode(b.as_mut_slice()) {
            Ok(m) => m,
            Err(e) => {
                return Err(e);
            },
        };
        proof {
            assert(b@ =~= self.spec_wire());
        }
        Ok((b, m))
    }
}

} // verus!
