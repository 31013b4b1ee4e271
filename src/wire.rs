//! The wire contracts: a type that knows its encoded bytes and writes them,
//! a type that reads itself back from bytes, and the law that joins the two.
use vstd::prelude::*;

use crate::bytes::{len_result, write_result, written};
use crate::error::Error;
use crate::le::lemma_pow256_values;
use crate::primitives::IntKind;

verus! {

/// `r` agrees with the decoding `spec` of a value of type `T`.
pub open spec fn decodes_as<T>(r: Result<(T, usize), Error>, spec: Result<(T, nat), Error>) -> bool {
    match r {
        Ok((v, n)) => spec == Ok::<(T, nat), Error>((v, n as nat)),
        Err(e) => spec == Err::<(T, nat), Error>(e),
    }
}

/// A binary encodable value.
pub trait Encode {
    /// The bytes this value encodes to.
    spec fn spec_wire(&self) -> Seq<u8>;

    /// The encoded length; fails with `Length` only when it exceeds what a
    /// `usize` holds.
    fn encode_len(&self) -> (r: Result<usize, Error>)
        ensures
            r == len_result(self.spec_wire()),
    ;

    /// Writes the encoding at the start of `buf`; fails with `Length` when
    /// `buf` is too short.
    fn encode(&self, buf: &mut [u8]) -> (r: Result<usize, Error>)
        ensures
            r == write_result(self.spec_wire(), old(buf)@.len()),
            r is Ok ==> final(buf)@ == written(old(buf)@, self.spec_wire()),
            r is Err ==> final(buf)@ == old(buf)@,
            final(buf)@.len() == old(buf)@.len(),
    ;
}

/// A value decoded into a self-contained (owned) result.
pub trait DecodeOwned: Sized {
    /// What decoding the start of `buf` gives: the value and the number of
    /// bytes it took.
    spec fn spec_decode(buf: Seq<u8>) -> Result<(Self, nat), Error>;

    fn decode_owned(buf: &[u8]) -> (r: Result<(Self, usize), Error>)
        ensures
            decodes_as(r, Self::spec_decode(buf@)),
            r matches Ok((_, n)) ==> n <= buf@.len(),
    ;
}

/// A type that encodes and decodes reversibly.
pub trait EncDecOwned: Encode + DecodeOwned {
    /// Decoding the encoding of a value gives the value back, with the
    /// length written, whatever bytes follow.
    proof fn lemma_round_trip(&self, rest: Seq<u8>)
        ensures
            Self::spec_decode(self.spec_wire() + rest) == Ok::<(Self, nat), Error>(
                (*self, self.spec_wire().len()),
            ),
    ;
}

/// Decoding whose result may borrow from the buffer it was read from.
pub trait Decode<'a>: Sized {
    /// The decoded value, which may hold references into the buffer.
    type Output;

    /// What decoding the start of `buf` gives.
    spec fn spec_decode_view(buf: Seq<u8>) -> Result<(Self::Output, nat), Error>;

    fn decode(buff: &'a [u8]) -> (r: Result<(Self::Output, usize), Error>)
        ensures
            decodes_as(r, Self::spec_decode_view(buff@)),
            r matches Ok((_, n)) ==> n <= buff@.len(),
    ;
}

/// Every owned decoder decodes as a borrowing one whose output borrows
/// nothing.
impl<'a, T: DecodeOwned> Decode<'a> for T {
    type Output = T;

    open spec fn spec_decode_view(buf: Seq<u8>) -> Result<(T, nat), Error> {
        T::spec_decode(buf)
    }

    fn decode(buff: &'a [u8]) -> (r: Result<(T, usize), Error>) {
        T::decode_owned(buff)
    }
}

/// A byte string that is the rest of the buffer, borrowed from it without a
/// copy.
impl<'a> Decode<'a> for &'a [u8] {
    type Output = &'a [u8];

    open spec fn spec_decode_view(buf: Seq<u8>) -> Result<(&'a [u8], nat), Error> {
        Ok((choose|s: &'a [u8]| s@ == buf, buf.len()))
    }

    fn decode(buff: &'a [u8]) -> (r: Result<(&'a [u8], usize), Error>) {
        proof {
            let c = choose|s: &'a [u8]| s@ == buff@;
            assert(c@ == buff@);
            assert(c =~= buff);
        }
        Ok((buff, buff.len()))
    }
}

/// A type that encodes and decodes reversibly, the decoded value being of the
/// type itself.
pub trait EncDec<'a>: Encode + Decode<'a, Output = Self> {
    /// Decoding the encoding of a value gives the value back, with the
    /// length written, whatever bytes follow.
    proof fn lemma_encdec_round_trip(&self, rest: Seq<u8>)
        ensures
            Self::spec_decode_view(self.spec_wire() + rest) == Ok::<(Self, nat), Error>(
                (*self, self.spec_wire().len()),
            ),
    ;
}

impl<'a, T: EncDecOwned> EncDec<'a> for T {
    proof fn lemma_encdec_round_trip(&self, rest: Seq<u8>) {
        self.lemma_round_trip(rest);
    }
}

/// The fixed-width integer types, each tied to its [`IntKind`].
pub trait FixedInt: Sized + Copy {
    spec fn kind() -> IntKind;

    spec fn spec_int(&self) -> int;

    fn int_kind() -> (r: IntKind)
        ensures
            r == Self::kind(),
    ;

    fn to_i128(&self) -> (r: i128)
        ensures
            r == self.spec_int(),
            Self::kind().in_range(r as int),
    ;

    fn from_i128(v: i128) -> (r: Self)
        requires
            Self::kind().in_range(v as int),
        ensures
            r.spec_int() == v,
    ;

    proof fn lemma_in_range(&self)
        ensures
            Self::kind().in_range(self.spec_int()),
    ;

    proof fn lemma_int_injective(a: Self, b: Self)
        ensures
            a.spec_int() == b.spec_int() ==> a == b,
    ;
}

impl<T: FixedInt> Encode for T {
    open spec fn spec_wire(&self) -> Seq<u8> {
        T::kind().wire(self.spec_int())
    }

    fn encode_len(&self) -> (r: Result<usize, Error>) {
        let k = T::int_kind();
        proof {
            k.lemma_wire_len(self.spec_int());
        }
        Ok(k.width())
    }

    fn encode(&self, buf: &mut [u8]) -> (r: Result<usize, Error>) {
        let k = T::int_kind();
        proof {
            k.lemma_wire_len(self.spec_int());
        }
        k.encode_int(self.to_i128(), buf)
    }
}

impl<T: FixedInt> DecodeOwned for T {
    open spec fn spec_decode(buf: Seq<u8>) -> Result<(T, nat), Error> {
        if buf.len() < T::kind().spec_width() {
            Err(Error::Length)
        } else {
            Ok((choose|v: T| v.spec_int() == T::kind().value_of(buf), T::kind().spec_width()))
        }
    }

    fn decode_owned(buf: &[u8]) -> (r: Result<(T, usize), Error>) {
        let k = T::int_kind();
        match k.decode_int(buf) {
            Ok((x, n)) => {
                let v = T::from_i128(x);
                proof {
                    let c = choose|c: T| c.spec_int() == T::kind().value_of(buf@);
                    T::lemma_int_injective(v, c);
                }
                Ok((v, n))
            },
            Err(e) => Err(e),
        }
    }
}

impl<T: FixedInt> EncDecOwned for T {
    proof fn lemma_round_trip(&self, rest: Seq<u8>) {
        let k = T::kind();
        self.lemma_in_range();
        k.lemma_round_trip(self.spec_int(), rest);
        let c = choose|c: T| c.spec_int() == k.value_of(self.spec_wire() + rest);
        T::lemma_int_injective(*self, c);
    }
}

impl FixedInt for u8 {
    open spec fn kind() -> IntKind {
        IntKind::U8
    }

    open spec fn spec_int(&self) -> int {
        *self as int
    }

    fn int_kind() -> (r: IntKind) {
        IntKind::U8
    }

    fn to_i128(&self) -> (r: i128) {
        proof {
            lemma_pow256_values();
        }
        *self as i128
    }

    fn from_i128(v: i128) -> (r: u8) {
        proof {
            lemma_pow256_values();
        }
        v as u8
    }

    proof fn lemma_in_range(&self) {
        lemma_pow256_values();
    }

    proof fn lemma_int_injective(a: u8, b: u8) {
    }
}

impl FixedInt for u16 {
    open spec fn kind() -> IntKind {
        IntKind::U16
    }

    open spec fn spec_int(&self) -> int {
        *self as int
    }

    fn int_kind() -> (r: IntKind) {
        IntKind::U16
    }

    fn to_i128(&self) -> (r: i128) {
        proof {
            lemma_pow256_values();
        }
        *self as i128
    }

    fn from_i128(v: i128) -> (r: u16) {
        proof {
            lemma_pow256_values();
        }
        v as u16
    }

    proof fn lemma_in_range(&self) {
        lemma_pow256_values();
    }

    proof fn lemma_int_injective(a: u16, b: u16) {
    }
}

impl FixedInt for u32 {
    open spec fn kind() -> IntKind {
        IntKind::U32
    }

    open spec fn spec_int(&self) -> int {
        *self as int
    }

    fn int_kind() -> (r: IntKind) {
        IntKind::U32
    }

    fn to_i128(&self) -> (r: i128) {
        proof {
            lemma_pow256_values();
        }
        *self as i128
    }

    fn from_i128(v: i128) -> (r: u32) {
        proof {
            lemma_pow256_values();
        }
        v as u32
    }

    proof fn lemma_in_range(&self) {
        lemma_pow256_values();
    }

    proof fn lemma_int_injective(a: u32, b: u32) {
    }
}

impl FixedInt for u64 {
    open spec fn kind() -> IntKind {
        IntKind::U64
    }

    open spec fn spec_int(&self) -> int {
        *self as int
    }

    fn int_kind() -> (r: IntKind) {
        IntKind::U64
    }

    fn to_i128(&self) -> (r: i128) {
        proof {
            lemma_pow256_values();
        }
        *self as i128
    }

    fn from_i128(v: i128) -> (r: u64) {
        proof {
            lemma_pow256_values();
        }
        v as u64
    }

    proof fn lemma_in_range(&self) {
        lemma_pow256_values();
    }

    proof fn lemma_int_injective(a: u64, b: u64) {
    }
}

impl FixedInt for i8 {
    open spec fn kind() -> IntKind {
        IntKind::I8
    }

    open spec fn spec_int(&self) -> int {
        *self as int
    }

    fn int_kind() -> (r: IntKind) {
        IntKind::I8
    }

    fn to_i128(&self) -> (r: i128) {
        proof {
            lemma_pow256_values();
        }
        *self as i128
    }

    fn from_i128(v: i128) -> (r: i8) {
        proof {
            lemma_pow256_values();
        }
        v as i8
    }

    proof fn lemma_in_range(&self) {
        lemma_pow256_values();
    }

    proof fn lemma_int_injective(a: i8, b: i8) {
    }
}

impl FixedInt for i16 {
    open spec fn kind() -> IntKind {
        IntKind::I16
    }

    open spec fn spec_int(&self) -> int {
        *self as int
    }

    fn int_kind() -> (r: IntKind) {
        IntKind::I16
    }

    fn to_i128(&self) -> (r: i128) {
        proof {
            lemma_pow256_values();
        }
        *self as i128
    }

    fn from_i128(v: i128) -> (r: i16) {
        proof {
            lemma_pow256_values();
        }
        v as i16
    }

    proof fn lemma_in_range(&self) {
        lemma_pow256_values();
    }

    proof fn lemma_int_injective(a: i16, b: i16) {
    }
}

impl FixedInt for i32 {
    open spec fn kind() -> IntKind {
        IntKind::I32
    }

    open spec fn spec_int(&self) -> int {
        *self as int
    }

    fn int_kind() -> (r: IntKind) {
        IntKind::I32
    }

    fn to_i128(&self) -> (r: i128) {
        proof {
            lemma_pow256_values();
        }
        *self as i128
    }

    fn from_i128(v: i128) -> (r: i32) {
        proof {
            lemma_pow256_values();
        }
        v as i32
    }

    proof fn lemma_in_range(&self) {
        lemma_pow256_values();
    }

    proof fn lemma_int_injective(a: i32, b: i32) {
    }
}

impl FixedInt for i64 {
    open spec fn kind() -> IntKind {
        IntKind::I64
    }

    open spec fn spec_int(&self) -> int {
        *self as int
    }

    fn int_kind() -> (r: IntKind) {
        IntKind::I64
    }

    fn to_i128(&self) -> (r: i128) {
        proof {
            lemma_pow256_values();
        }
        *self as i128
    }

    fn from_i128(v: i128) -> (r: i64) {
        proof {
            lemma_pow256_values();
        }
        v as i64
    }

    proof fn lemma_in_range(&self) {
        lemma_pow256_values();
    }

    proof fn lemma_int_injective(a: i64, b: i64) {
    }
}

} // verus!
