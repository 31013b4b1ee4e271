//! Record schemas: field types, field directives and their resolution into one
//! strategy per field, record values, and the byte-level model of a record.
use vstd::prelude::*;
use vstd::utf8::{decode_utf8, encode_utf8, valid_utf8};

use crate::error::Error;
use crate::primitives::IntKind;
use crate::sequence::{all_in_range, decode_greedy, decode_ints, ints_wire};

verus! {

/// The type of one field of a record.
#[derive(Copy, Clone, PartialEq, Eq, Structural, Debug)]
pub enum FieldType {
    /// A fixed-width integer.
    Int(IntKind),
    /// A fixed-count array of integers.
    Array(IntKind, usize),
    /// A byte string whose length a sibling field gives.
    Bytes,
    /// A UTF-8 text whose length a sibling field gives.
    Text,
    /// A byte string preceded by its own length, as an integer of the kind.
    Prefixed(IntKind),
    /// A sequence of integers that runs to the end of the buffer.
    Greedy(IntKind),
    /// A nested record, encoded and decoded by a codec (see `Nested`).
    Record,
    /// A list of values of any type a codec handles (see `Repeated`).
    List,
}

/// The value of one field.
#[derive(PartialEq, Eq, Debug)]
pub enum Value {
    Int(i128),
    Ints(Vec<i128>),
    Bytes(Vec<u8>),
    Text(String),
    /// The field values of a nested record, in field order.
    Record(Vec<Value>),
    /// The elements of a list, in order.
    List(Vec<Value>),
}

/// The mathematical content of a [`Value`].
pub enum ValueModel {
    Int(int),
    Ints(Seq<i128>),
    Bytes(Seq<u8>),
    Text(Seq<char>),
    Record(Seq<ValueModel>),
    List(Seq<ValueModel>),
}

/// The mathematical content of `v`.
pub open spec fn value_model(v: Value) -> ValueModel
    decreases v,
{
    match v {
        Value::Int(x) => ValueModel::Int(x as int),
        Value::Ints(s) => ValueModel::Ints(s@),
        Value::Bytes(b) => ValueModel::Bytes(b@),
        Value::Text(t) => ValueModel::Text(t@),
        Value::Record(r) => ValueModel::Record(
            Seq::new(
                r@.len(),
                |i: int|
                    if 0 <= i < r@.len() {
                        value_model(r@[i])
                    } else {
                        ValueModel::Int(0)
                    },
            ),
        ),
        Value::List(r) => ValueModel::List(
            Seq::new(
                r@.len(),
                |i: int|
                    if 0 <= i < r@.len() {
                        value_model(r@[i])
                    } else {
                        ValueModel::Int(0)
                    },
            ),
        ),
    }
}

impl View for Value {
    type V = ValueModel;

    open spec fn view(&self) -> ValueModel {
        value_model(*self)
    }
}

/// The models of the values of a record, in field order.
pub open spec fn model(rec: Seq<Value>) -> Seq<ValueModel> {
    rec.map_values(|v: Value| v@)
}

/// The directives written on one field, before resolution. Each names a
/// sibling field or a caller-supplied codec by its index.
#[derive(Copy, Clone, PartialEq, Eq, Structural, Debug)]
pub struct FieldAttrs {
    /// The field's length is the value of this sibling.
    pub length: Option<usize>,
    /// The field holds the encoded length of this sibling.
    pub length_of: Option<usize>,
    /// The codec that encodes, measures and decodes the field.
    pub with: Option<usize>,
    /// The codec whose encode replaces the default one.
    pub enc: Option<usize>,
    /// The codec whose length replaces the default one.
    pub enc_len: Option<usize>,
    /// The codec whose decode replaces the default one.
    pub dec: Option<usize>,
}

/// The single strategy a field is encoded and decoded with.
#[derive(Copy, Clone, PartialEq, Eq, Structural, Debug)]
pub enum Strategy {
    /// The field type's own codec.
    Default,
    /// Length supplied by the integer value of the sibling at this index.
    ExplicitLength(usize),
    /// Value derived, when encoding, from the encoded length of this sibling.
    LengthOf(usize),
    /// Every operation delegated to the codec at this index.
    With(usize),
    /// Individual operations delegated; the others use the type's own codec.
    Functions { enc: Option<usize>, enc_len: Option<usize>, dec: Option<usize> },
}

impl FieldAttrs {
    /// Directive precedence: a codec module first, then individual
    /// functions, then an explicit length, then a length-of, else the default.
    pub open spec fn spec_resolve(self) -> Strategy {
        if self.with is Some {
            Strategy::With(self.with->0)
        } else if self.enc is Some || self.enc_len is Some || self.dec is Some {
            Strategy::Functions { enc: self.enc, enc_len: self.enc_len, dec: self.dec }
        } else if self.length is Some {
            Strategy::ExplicitLength(self.length->0)
        } else if self.length_of is Some {
            Strategy::LengthOf(self.length_of->0)
        } else {
            Strategy::Default
        }
    }

    /// No directive at all.
    pub fn none() -> (r: FieldAttrs)
        ensures
            r.spec_resolve() == Strategy::Default,
    {
        FieldAttrs { length: None, length_of: None, with: None, enc: None, enc_len: None, dec: None }
    }

    /// Chooses exactly one strategy for the field.
    pub fn resolve(&self) -> (r: Strategy)
        ensures
            r == self.spec_resolve(),
    {
        if let Some(c) = self.with {
            Strategy::With(c)
        } else if self.enc.is_some() || self.enc_len.is_some() || self.dec.is_some() {
            Strategy::Functions { enc: self.enc, enc_len: self.enc_len, dec: self.dec }
        } else if let Some(s) = self.length {
            Strategy::ExplicitLength(s)
        } else if let Some(t) = self.length_of {
            Strategy::LengthOf(t)
        } else {
            Strategy::Default
        }
    }
}

impl Strategy {
    /// The codec that encodes the field, if one replaces the default.
    pub open spec fn enc_codec(self) -> Option<usize> {
        match self {
            Strategy::With(c) => Some(c),
            Strategy::Functions { enc, .. } => enc,
            _ => None,
        }
    }

    /// The codec that measures the field, if one replaces the default.
    pub open spec fn len_codec(self) -> Option<usize> {
        match self {
            Strategy::With(c) => Some(c),
            Strategy::Functions { enc_len, .. } => enc_len,
            _ => None,
        }
    }

    /// The codec that decodes the field, if one replaces the default.
    pub open spec fn dec_codec(self) -> Option<usize> {
        match self {
            Strategy::With(c) => Some(c),
            Strategy::Functions { dec, .. } => dec,
            _ => None,
        }
    }

    /// Overridden operations come from one codec, and encode, length and
    /// decode are overridden together or not at all.
    pub open spec fn consistent(self) -> bool {
        self.enc_codec() == self.len_codec() && self.enc_codec() == self.dec_codec()
    }

    pub fn enc_codec_exec(&self) -> (r: Option<usize>)
        ensures
            r == self.enc_codec(),
    {
        match self {
            Strategy::With(c) => Some(*c),
            Strategy::Functions { enc, .. } => *enc,
            _ => None,
        }
    }

    pub fn len_codec_exec(&self) -> (r: Option<usize>)
        ensures
            r == self.len_codec(),
    {
        match self {
            Strategy::With(c) => Some(*c),
            Strategy::Functions { enc_len, .. } => *enc_len,
            _ => None,
        }
    }

    pub fn dec_codec_exec(&self) -> (r: Option<usize>)
        ensures
            r == self.dec_codec(),
    {
        match self {
            Strategy::With(c) => Some(*c),
            Strategy::Functions { dec, .. } => *dec,
            _ => None,
        }
    }
}

/// One field of a record schema.
#[derive(Copy, Clone, PartialEq, Eq, Structural, Debug)]
pub struct Field {
    pub ty: FieldType,
    pub strategy: Strategy,
}

impl Field {
    /// A field of type `ty` whose directives are `attrs`, resolved once.
    pub fn new(ty: FieldType, attrs: &FieldAttrs) -> (r: Field)
        ensures
            r.ty == ty,
            r.strategy == attrs.spec_resolve(),
    {
        Field { ty, strategy: attrs.resolve() }
    }
}

/// Whether `v` is a value of type `ty`.
pub open spec fn fits(ty: FieldType, v: ValueModel) -> bool {
    match (ty, v) {
        (FieldType::Int(k), ValueModel::Int(x)) => k.in_range(x),
        (FieldType::Array(k, n), ValueModel::Ints(s)) => s.len() == n && all_in_range(k, s),
        (FieldType::Greedy(k), ValueModel::Ints(s)) => all_in_range(k, s),
        (FieldType::Bytes, ValueModel::Bytes(_)) => true,
        (FieldType::Text, ValueModel::Text(_)) => true,
        (FieldType::Prefixed(_), ValueModel::Bytes(_)) => true,
        (FieldType::Record, ValueModel::Record(_)) => true,
        (FieldType::List, ValueModel::List(_)) => true,
        _ => false,
    }
}

/// The bytes the type's own codec writes for `v`.
pub open spec fn plain_wire(ty: FieldType, v: ValueModel) -> Seq<u8> {
    match (ty, v) {
        (FieldType::Int(k), ValueModel::Int(x)) => k.wire(x),
        (FieldType::Array(k, _), ValueModel::Ints(s)) => ints_wire(k, s),
        (FieldType::Greedy(k), ValueModel::Ints(s)) => ints_wire(k, s),
        (FieldType::Bytes, ValueModel::Bytes(b)) => b,
        (FieldType::Text, ValueModel::Text(c)) => encode_utf8(c),
        (FieldType::Prefixed(k), ValueModel::Bytes(b)) => k.wire(b.len() as int) + b,
        _ => seq![],
    }
}

/// Whether the type's own codec can write `v`: a length prefix must hold the
/// body's length.
pub open spec fn plain_encodable(ty: FieldType, v: ValueModel) -> bool {
    match (ty, v) {
        (FieldType::Prefixed(k), ValueModel::Bytes(b)) => b.len() <= k.max_value(),
        _ => true,
    }
}

/// What the type's own codec decodes from the start of `buf`: the value and
/// the number of bytes it took.
pub open spec fn plain_decode(ty: FieldType, buf: Seq<u8>) -> Result<(ValueModel, nat), Error> {
    let w = ty_width(ty);
    match ty {
        FieldType::Int(k) => if buf.len() < w {
            Err(Error::Length)
        } else {
            Ok((ValueModel::Int(k.value_of(buf)), w))
        },
        FieldType::Array(k, n) => match decode_ints(k, buf, n as nat) {
            Some(s) => Ok((ValueModel::Ints(s), (n * w) as nat)),
            None => Err(Error::Length),
        },
        FieldType::Greedy(k) => match decode_greedy(k, buf) {
            Some(s) => Ok((ValueModel::Ints(s), buf.len())),
            None => Err(Error::Length),
        },
        FieldType::Prefixed(k) => if buf.len() < w {
            Err(Error::Length)
        } else {
            let l = k.value_of(buf);
            if l < 0 || w + l > buf.len() {
                Err(Error::Length)
            } else {
                Ok((ValueModel::Bytes(buf.subrange(w as int, w + l)), (w + l) as nat))
            }
        },
        _ => Err(Error::Length),
    }
}

/// Width of the integers a type is made of (zero for byte strings).
pub open spec fn ty_width(ty: FieldType) -> nat {
    match ty {
        FieldType::Int(k) => k.spec_width(),
        FieldType::Array(k, _) => k.spec_width(),
        FieldType::Greedy(k) => k.spec_width(),
        FieldType::Prefixed(k) => k.spec_width(),
        _ => 0,
    }
}

/// What a field of type `ty` whose length is `bytes.len()` decodes to.
pub open spec fn tagged_decode(ty: FieldType, bytes: Seq<u8>) -> Result<(ValueModel, nat), Error> {
    match ty {
        FieldType::Bytes => Ok((ValueModel::Bytes(bytes), bytes.len())),
        FieldType::Text => if valid_utf8(bytes) {
            Ok((ValueModel::Text(decode_utf8(bytes)), bytes.len()))
        } else {
            Err(Error::Utf8)
        },
        _ => Err(Error::Length),
    }
}

/// A caller-supplied codec for fields, in the manner of a module of `enc`,
/// `enc_len` and `dec` functions. Its operations are stated over a byte model
/// that it fixes, and it proves that its decode inverts its encode.
pub trait FieldCodec {
    /// The values this codec encodes, and decodes back.
    spec fn accepts(&self, v: ValueModel) -> bool;

    /// The bytes this codec writes for `v`.
    spec fn spec_wire(&self, v: ValueModel) -> Seq<u8>;

    /// What `enc_len` returns for `v`.
    spec fn spec_enc_len(&self, v: ValueModel) -> Result<usize, Error>;

    /// What `enc` returns for `v` and a buffer of `room` bytes.
    spec fn spec_enc(&self, v: ValueModel, room: nat) -> Result<usize, Error>;

    /// What this codec decodes from the start of `buf`.
    spec fn spec_decode(&self, buf: Seq<u8>) -> Result<(ValueModel, nat), Error>;

    fn enc_len(&self, v: &Value) -> (r: Result<usize, Error>)
        ensures
            r == self.spec_enc_len(v@),
    ;

    /// Writes `v` at the start of `buf`; on an error nothing is written.
    fn enc(&self, v: &Value, buf: &mut [u8]) -> (r: Result<usize, Error>)
        ensures
            r == self.spec_enc(v@, old(buf)@.len()),
            r is Ok ==> final(buf)@ == crate::bytes::written(old(buf)@, self.spec_wire(v@)),
            r is Err ==> final(buf)@ == old(buf)@,
            final(buf)@.len() == old(buf)@.len(),
    ;

    fn dec(&self, buf: &[u8]) -> (r: Result<(Value, usize), Error>)
        ensures
            match r {
                Ok((v, n)) => self.spec_decode(buf@) == Ok::<(ValueModel, nat), Error>(
                    (v@, n as nat),
                ) && n <= buf@.len(),
                Err(e) => self.spec_decode(buf@) == Err::<(ValueModel, nat), Error>(e),
            },
    ;

    /// A length or an encode that succeeds is that of the codec's bytes, and
    /// an encode fits its buffer.
    proof fn lemma_enc_ok(&self, v: ValueModel, room: nat)
        ensures
            self.spec_enc_len(v) matches Ok(l) ==> l == self.spec_wire(v).len(),
            self.spec_enc(v, room) matches Ok(m) ==> m == self.spec_wire(v).len() && m <= room,
    ;

    /// An accepted value is measured and written without an error of the
    /// codec's own: only a short buffer or an oversized length fails.
    proof fn lemma_accepted(&self, v: ValueModel, room: nat)
        requires
            self.accepts(v),
            room <= usize::MAX,
        ensures
            self.spec_enc_len(v) == crate::bytes::len_result(self.spec_wire(v)),
            self.spec_enc(v, room) == crate::bytes::write_result(self.spec_wire(v), room),
    ;

    /// Decoding the encoding of an accepted value gives it back, with the
    /// length written, whatever follows.
    proof fn lemma_codec_round_trip(&self, v: ValueModel, rest: Seq<u8>)
        requires
            self.accepts(v),
        ensures
            self.spec_decode(self.spec_wire(v) + rest) == Ok::<(ValueModel, nat), Error>(
                (v, self.spec_wire(v).len()),
            ),
    ;

    /// Decoding reads no byte past the value it decodes: bytes appended after
    /// them change nothing.
    proof fn lemma_codec_prefix(&self, buf: Seq<u8>, extra: Seq<u8>)
        ensures
            self.spec_decode(buf) matches Ok((v, n)) ==> self.spec_decode(buf + extra) == Ok::<
                (ValueModel, nat),
                Error,
            >((v, n)),
    ;
}

} // verus!
