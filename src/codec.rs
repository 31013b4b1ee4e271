//! A field codec that writes an integer big-endian after a marker byte, for
//! fields whose layout differs from the default little-endian one.
use vstd::prelude::*;

use crate::bytes::{tail, written};
use crate::error::Error;
use crate::le::{lemma_pow256_mono, lemma_pow256_values, pow256};
use crate::primitives::IntKind;
use crate::schema::{FieldCodec, Value, ValueModel};

verus! {

/// The `n` low-order bytes of `v`, most significant first.
pub open spec fn be_bytes(v: nat, n: nat) -> Seq<u8>
    decreases n,
{
    if n == 0 {
        seq![]
    } else {
        be_bytes(v / 256, (n - 1) as nat).push((v % 256) as u8)
    }
}

/// The unsigned number whose big-endian bytes are `s`.
pub open spec fn be_value(s: Seq<u8>) -> nat
    decreases s.len(),
{
    if s.len() == 0 {
        0
    } else {
        be_value(s.drop_last()) * 256 + s.last() as nat
    }
}

pub proof fn lemma_be_bytes_len(v: nat, n: nat)
    ensures
        be_bytes(v, n).len() == n,
    decreases n,
{
    if n > 0 {
        lemma_be_bytes_len(v / 256, (n - 1) as nat);
    }
}

pub proof fn lemma_be_round_trip(v: nat, n: nat)
    requires
        v < pow256(n),
    ensures
        be_value(be_bytes(v, n)) == v,
    decreases n,
{
    if n > 0 {
        let p = pow256((n - 1) as nat);
        assert(v / 256 < p) by (nonlinear_arith)
            requires
                v < 256 * p,
        ;
        lemma_be_round_trip(v / 256, (n - 1) as nat);
        let s = be_bytes(v, n);
        assert(s.drop_last() =~= be_bytes(v / 256, (n - 1) as nat));
        assert(v == (v / 256) * 256 + v % 256) by (nonlinear_arith);
    }
}

pub proof fn lemma_be_value_bound(s: Seq<u8>)
    ensures
        be_value(s) < pow256(s.len()),
    decreases s.len(),
{
    if s.len() > 0 {
        lemma_be_value_bound(s.drop_last());
        let r = be_value(s.drop_last());
        let p = pow256(s.drop_last().len());
        let b = s.last() as nat;
        assert(r * 256 + b < 256 * p) by (nonlinear_arith)
            requires
                b < 256,
                r < p,
        ;
    }
}

/// Writes the `width` low-order bytes of `v` at the start of `buf`, most
/// significant first.
pub fn write_be(buf: &mut [u8], v: u64, width: usize)
    requires
        width <= old(buf)@.len(),
    ensures
        final(buf)@ == be_bytes(v as nat, width as nat) + old(buf)@.skip(width as int),
{
    let ghost whole = be_bytes(v as nat, width as nat);
    proof {
        lemma_be_bytes_len(v as nat, width as nat);
    }
    let mut i: usize = 0;
    let mut u: u64 = v;
    while i < width
        invariant
            i <= width,
            width <= old(buf)@.len(),
            buf@.len() == old(buf)@.len(),
            whole == be_bytes(v as nat, width as nat),
            whole.len() == width,
            whole == be_bytes(u as nat, (width - i) as nat) + buf@.subrange(
                (width - i) as int,
                width as int,
            ),
            forall|j: int| width <= j < buf@.len() ==> buf@[j] == old(buf)@[j],
        decreases width - i,
    {
        let b: u8 = (u % 256) as u8;
        let ghost before = buf@;
        let at = width - 1 - i;
        buf[at] = b;
        proof {
            let front = be_bytes(u as nat, (width - i) as nat);
            assert(front == be_bytes((u / 256) as nat, (width - i - 1) as nat).push(b));
            assert(buf@.subrange(at as int, width as int) =~= seq![b] + before.subrange(
                (width - i) as int,
                width as int,
            ));
            assert(whole =~= be_bytes((u / 256) as nat, (width - i - 1) as nat) + buf@.subrange(
                at as int,
                width as int,
            ));
        }
        u = u / 256;
        i = i + 1;
    }
    assert(buf@ =~= whole + old(buf)@.skip(width as int));
}

/// Reads the unsigned number stored big-endian in the first `width` bytes of
/// `buf`.
pub fn read_be(buf: &[u8], width: usize) -> (r: u64)
    requires
        width <= buf@.len(),
        width <= 8,
    ensures
        r as nat == be_value(buf@.take(width as int)),
{
    let mut acc: u64 = 0;
    let mut i: usize = 0;
    proof {
        lemma_pow256_values();
    }
    while i < width
        invariant
            i <= width,
            width <= buf@.len(),
            width <= 8,
            pow256(8) == 0x1_0000_0000_0000_0000,
            acc as nat == be_value(buf@.take(i as int)),
        decreases width - i,
    {
        proof {
            let head = buf@.take(i as int);
            lemma_be_value_bound(head);
            lemma_pow256_mono(i as nat, 7);
            lemma_pow256_values();
            assert(buf@.take(i + 1).drop_last() =~= head);
        }
        acc = acc * 256 + buf[i] as u64;
        i = i + 1;
    }
    acc
}

/// An integer of `kind`, written as the byte `marker` followed by the
/// integer's bytes most significant first. Decoding skips the marker without
/// checking it.
#[derive(Copy, Clone, PartialEq, Eq, Structural, Debug)]
pub struct MarkedBigEndian {
    pub marker: u8,
    pub kind: IntKind,
}

impl MarkedBigEndian {
    pub open spec fn width(self) -> nat {
        1 + self.kind.spec_width()
    }
}

impl FieldCodec for MarkedBigEndian {
    open spec fn accepts(&self, v: ValueModel) -> bool {
        v matches ValueModel::Int(x) && self.kind.in_range(x)
    }

    open spec fn spec_enc_len(&self, v: ValueModel) -> Result<usize, Error> {
        if self.accepts(v) {
            Ok(self.width() as usize)
        } else {
            Err(Error::Length)
        }
    }

    open spec fn spec_enc(&self, v: ValueModel, room: nat) -> Result<usize, Error> {
        if self.accepts(v) && self.width() <= room {
            Ok(self.width() as usize)
        } else {
            Err(Error::Length)
        }
    }

    open spec fn spec_wire(&self, v: ValueModel) -> Seq<u8> {
        match v {
            ValueModel::Int(x) => seq![self.marker] + be_bytes(
                self.kind.bits(x),
                self.kind.spec_width(),
            ),
            _ => seq![],
        }
    }

    open spec fn spec_decode(&self, buf: Seq<u8>) -> Result<(ValueModel, nat), Error> {
        if buf.len() < self.width() {
            Err(Error::Length)
        } else {
            Ok(
                (
                    ValueModel::Int(
                        self.kind.from_bits(
                            be_value(buf.subrange(1, self.width() as int)),
                        ),
                    ),
                    self.width(),
                ),
            )
        }
    }

    fn enc_len(&self, v: &Value) -> (r: Result<usize, Error>) {
        let x = match v {
            Value::Int(x) => *x,
            _ => {
                return Err(Error::Length);
            },
        };
        if !self.kind.fits_exec(x) {
            return Err(Error::Length);
        }
        proof {
            self.kind.lemma_modulus();
            if let ValueModel::Int(x) = v@ {
                lemma_be_bytes_len(self.kind.bits(x), self.kind.spec_width());
            }
        }
        Ok(1 + self.kind.width())
    }

    fn enc(&self, v: &Value, buf: &mut [u8]) -> (r: Result<usize, Error>) {
        let w = self.kind.width();
        proof {
            self.kind.lemma_modulus();
        }
        let x = match v {
            Value::Int(x) => *x,
            _ => {
                return Err(Error::Length);
            },
        };
        proof {
            lemma_be_bytes_len(self.kind.bits(x as int), self.kind.spec_width());
        }
        if !self.kind.fits_exec(x) {
            return Err(Error::Length);
        }
        if buf.len() < 1 + w {
            return Err(Error::Length);
        }
        let bits = self.kind.bits_exec(x);
        buf[0] = self.marker;
        let (head, rest) = buf.split_at_mut(1);
        let ghost h0 = head@;
        write_be(rest, bits, w);
        proof {
            assert(buf@ == head@ + rest@);
            assert(head@ == h0);
            assert(buf@ =~= written(old(buf)@, self.spec_wire(v@)));
        }
        Ok(1 + w)
    }

    fn dec(&self, buf: &[u8]) -> (r: Result<(Value, usize), Error>) {
        let w = self.kind.width();
        proof {
            self.kind.lemma_modulus();
        }
        if buf.len() < 1 + w {
            return Err(Error::Length);
        }
        let body = tail(buf, 1);
        let u = read_be(body, w);
        proof {
            assert(body@.take(w as int) =~= buf@.subrange(1, 1 + w));
            lemma_be_value_bound(body@.take(w as int));
        }
        let x = self.kind.from_bits_exec(u);
        Ok((Value::Int(x), 1 + w))
    }

    proof fn lemma_enc_ok(&self, v: ValueModel, room: nat) {
        self.kind.lemma_modulus();
        if let ValueModel::Int(x) = v {
            lemma_be_bytes_len(self.kind.bits(x), self.kind.spec_width());
        }
    }

    proof fn lemma_accepted(&self, v: ValueModel, room: nat) {
        self.kind.lemma_modulus();
        if let ValueModel::Int(x) = v {
            lemma_be_bytes_len(self.kind.bits(x), self.kind.spec_width());
        }
    }

    proof fn lemma_codec_prefix(&self, buf: Seq<u8>, extra: Seq<u8>) {
        if buf.len() >= self.width() {
            assert((buf + extra).subrange(1, self.width() as int) =~= buf.subrange(
                1,
                self.width() as int,
            ));
        }
    }

    proof fn lemma_codec_round_trip(&self, v: ValueModel, rest: Seq<u8>) {
        let k = self.kind;
        k.lemma_modulus();
        if let ValueModel::Int(x) = v {
            let b = be_bytes(k.bits(x), k.spec_width());
            lemma_be_bytes_len(k.bits(x), k.spec_width());
            k.lemma_bits_round_trip(x);
            lemma_be_round_trip(k.bits(x), k.spec_width());
            let buf = seq![self.marker] + b + rest;
            assert(buf.subrange(1, self.width() as int) =~= b);
        }
    }
}

} // verus!
