//! Fixed-width signed and unsigned integers: their ranges, their two's
//! complement wire form, and the checked encode and decode of one value.
use vstd::prelude::*;

use crate::error::Error;
use crate::le::{
    le_bytes, le_value, lemma_le_bytes_len, lemma_le_round_trip, lemma_le_value_bound,
    lemma_pow256_values, pow256, read_le, write_le,
};

verus! {

/// The eight fixed-width integer types of the wire format.
#[derive(Copy, Clone, PartialEq, Eq, Structural, Debug)]
pub enum IntKind {
    U8,
    U16,
    U32,
    U64,
    I8,
    I16,
    I32,
    I64,
}

impl IntKind {
    /// Number of bytes a value of this kind occupies.
    pub open spec fn spec_width(self) -> nat {
        match self {
            IntKind::U8 | IntKind::I8 => 1,
            IntKind::U16 | IntKind::I16 => 2,
            IntKind::U32 | IntKind::I32 => 4,
            IntKind::U64 | IntKind::I64 => 8,
        }
    }

    pub open spec fn is_signed(self) -> bool {
        match self {
            IntKind::I8 | IntKind::I16 | IntKind::I32 | IntKind::I64 => true,
            _ => false,
        }
    }

    /// Number of distinct values of this kind, `256^width`.
    pub open spec fn modulus(self) -> nat {
        pow256(self.spec_width())
    }

    pub open spec fn min_value(self) -> int {
        if self.is_signed() {
            -(self.modulus() / 2)
        } else {
            0
        }
    }

    pub open spec fn max_value(self) -> int {
        if self.is_signed() {
            self.modulus() / 2 - 1
        } else {
            self.modulus() - 1
        }
    }

    pub open spec fn in_range(self, v: int) -> bool {
        self.min_value() <= v <= self.max_value()
    }

    /// Two's complement bit pattern of `v`, as an unsigned number.
    pub open spec fn bits(self, v: int) -> nat {
        if v < 0 {
            (v + self.modulus()) as nat
        } else {
            v as nat
        }
    }

    /// The value whose bit pattern is the unsigned number `u`.
    pub open spec fn from_bits(self, u: nat) -> int {
        if self.is_signed() && u >= self.modulus() / 2 {
            u - self.modulus()
        } else {
            u as int
        }
    }

    /// The bytes that encode `v`.
    pub open spec fn wire(self, v: int) -> Seq<u8> {
        le_bytes(self.bits(v), self.spec_width())
    }

    /// The value stored in the first `width` bytes of `s`.
    pub open spec fn value_of(self, s: Seq<u8>) -> int {
        self.from_bits(le_value(s.take(self.spec_width() as int)))
    }

    pub fn width(&self) -> (r: usize)
        ensures
            r == self.spec_width(),
    {
        match self {
            IntKind::U8 | IntKind::I8 => 1,
            IntKind::U16 | IntKind::I16 => 2,
            IntKind::U32 | IntKind::I32 => 4,
            IntKind::U64 | IntKind::I64 => 8,
        }
    }

    pub fn signed(&self) -> (r: bool)
        ensures
            r == self.is_signed(),
    {
        match self {
            IntKind::I8 | IntKind::I16 | IntKind::I32 | IntKind::I64 => true,
            _ => false,
        }
    }

    fn modulus_exec(&self) -> (r: i128)
        ensures
            r == self.modulus(),
    {
        proof {
            lemma_pow256_values();
        }
        match self {
            IntKind::U8 | IntKind::I8 => 0x100,
            IntKind::U16 | IntKind::I16 => 0x1_0000,
            IntKind::U32 | IntKind::I32 => 0x1_0000_0000,
            IntKind::U64 | IntKind::I64 => 0x1_0000_0000_0000_0000,
        }
    }

    /// The largest value of this kind.
    pub fn max_value_exec(&self) -> (r: i128)
        ensures
            r == self.max_value(),
    {
        let m = self.modulus_exec();
        proof {
            self.lemma_modulus();
        }
        if self.signed() {
            m / 2 - 1
        } else {
            m - 1
        }
    }

    /// Whether `v` is a value of this kind.
    pub fn fits_exec(&self, v: i128) -> (r: bool)
        ensures
            r == self.in_range(v as int),
    {
        let m = self.modulus_exec();
        proof {
            self.lemma_modulus();
        }
        if self.signed() {
            -(m / 2) <= v && v <= m / 2 - 1
        } else {
            0 <= v && v <= m - 1
        }
    }

    /// The two's complement bit pattern of `v`.
    pub fn bits_exec(&self, v: i128) -> (r: u64)
        requires
            self.in_range(v as int),
        ensures
            r == self.bits(v as int),
            (r as nat) < self.modulus(),
    {
        let m = self.modulus_exec();
        proof {
            self.lemma_modulus();
        }
        if v < 0 {
            (v + m) as u64
        } else {
            v as u64
        }
    }

    /// The value whose bit pattern is `u`.
    pub fn from_bits_exec(&self, u: u64) -> (r: i128)
        requires
            (u as nat) < self.modulus(),
        ensures
            r == self.from_bits(u as nat),
            self.in_range(r as int),
    {
        let m = self.modulus_exec();
        proof {
            self.lemma_modulus();
        }
        if self.signed() && u as i128 >= m / 2 {
            u as i128 - m
        } else {
            u as i128
        }
    }

    /// A value's bit pattern is below the modulus and gives the value back.
    pub proof fn lemma_bits_round_trip(self, v: int)
        requires
            self.in_range(v),
        ensures
            self.bits(v) < self.modulus(),
            self.from_bits(self.bits(v)) == v,
    {
        self.lemma_modulus();
    }

    pub proof fn lemma_modulus(self)
        ensures
            self.modulus() == pow256(self.spec_width()),
            self.modulus() >= 0x100,
            self.modulus() <= 0x1_0000_0000_0000_0000,
            self.spec_width() <= 8,
            self.modulus() % 2 == 0,
    {
        lemma_pow256_values();
    }

    pub proof fn lemma_wire_len(self, v: int)
        ensures
            self.wire(v).len() == self.spec_width(),
    {
        lemma_le_bytes_len(self.bits(v), self.spec_width());
    }

    /// Every value of the kind is read back from its bytes, whatever follows
    /// them.
    pub proof fn lemma_round_trip(self, v: int, rest: Seq<u8>)
        requires
            self.in_range(v),
        ensures
            self.value_of(self.wire(v) + rest) == v,
            self.wire(v).len() == self.spec_width(),
    {
        self.lemma_modulus();
        self.lemma_wire_len(v);
        let w = self.wire(v);
        assert((w + rest).take(self.spec_width() as int) =~= w);
        lemma_le_round_trip(self.bits(v), self.spec_width());
    }

    /// Writes `v` at the start of `buf`; fails with `Length`, writing
    /// nothing, when `buf` is shorter than the kind's width.
    pub fn encode_int(&self, v: i128, buf: &mut [u8]) -> (r: Result<usize, Error>)
        requires
            self.in_range(v as int),
        ensures
            old(buf)@.len() < self.spec_width() ==> r == Err::<usize, Error>(Error::Length)
                && final(buf)@ == old(buf)@,
            old(buf)@.len() >= self.spec_width() ==> r == Ok::<usize, Error>(
                self.spec_width() as usize,
            ) && final(buf)@ == self.wire(v as int) + old(buf)@.skip(
                self.spec_width() as int,
            ),
    {
        let w = self.width();
        if buf.len() < w {
            return Err(Error::Length);
        }
        let u = self.bits_exec(v);
        write_le(buf, u, w);
        Ok(w)
    }

    /// Reads a value of this kind from the start of `buf`; fails with
    /// `Length` when `buf` is shorter than the kind's width.
    pub fn decode_int(&self, buf: &[u8]) -> (r: Result<(i128, usize), Error>)
        ensures
            buf@.len() < self.spec_width() ==> r == Err::<(i128, usize), Error>(Error::Length),
            buf@.len() >= self.spec_width() ==> (r matches Ok((v, n)) && n == self.spec_width()
                && v as int == self.value_of(buf@) && self.in_range(v as int)),
    {
        let w = self.width();
        if buf.len() < w {
            return Err(Error::Length);
        }
        let u = read_le(buf, w);
        proof {
            self.lemma_modulus();
            lemma_le_value_bound(buf@.take(w as int));
        }
        Ok((self.from_bits_exec(u), w))
    }
}

} // verus!
