//! A record schema and the three procedures it yields: `encode_len`,
//! `encode` and `decode`, each running over the fields in declared order.
use vstd::prelude::*;

use crate::bytes::{size_result, tail, written};
use crate::error::{convert_error, converted, Error};
use crate::field::{decode_plain, decode_tagged, decoded_as, encode_plain, fits_exec, plain_len};
use crate::schema::{
    fits, model, plain_decode, plain_encodable, plain_wire, tagged_decode, Field, FieldCodec,
    FieldType, Strategy, Value, ValueModel,
};

verus! {

/// A record description: its fields in order, and the caller-supplied codecs
/// that field directives refer to by index.
pub struct Schema<C> {
    pub fields: Vec<Field>,
    pub codecs: Vec<C>,
}

/// `r` with its count as a `usize`.
pub open spec fn as_size(r: Result<nat, Error>) -> Result<usize, Error> {
    match r {
        Ok(n) => Ok(n as usize),
        Err(e) => Err(e),
    }
}

/// `r` with `pos` added to the length consumed.
pub open spec fn shifted(
    r: Result<(Seq<ValueModel>, nat), Error>,
    pos: nat,
) -> Result<(Seq<ValueModel>, nat), Error> {
    match r {
        Ok((vals, n)) => Ok((vals, n + pos)),
        Err(e) => Err(e),
    }
}

/// `c` names one of `ncodecs` codecs, if it names any.
pub open spec fn codec_in(c: Option<usize>, ncodecs: nat) -> bool {
    c matches Some(i) ==> i < ncodecs
}

/// The directives of field `i` refer to what exists, and every field can be
/// decoded: a byte string or text needs a length or a codec, and a greedy
/// sequence must come last.
pub open spec fn field_wf_in(fields: Seq<Field>, ncodecs: nat, i: int) -> bool {
    let f = fields[i];
    &&& codec_in(f.strategy.enc_codec(), ncodecs)
    &&& codec_in(f.strategy.len_codec(), ncodecs)
    &&& codec_in(f.strategy.dec_codec(), ncodecs)
    &&& match f.strategy {
        Strategy::ExplicitLength(s) => {
            &&& s < i
            &&& (f.ty is Bytes || f.ty is Text)
            &&& fields[s as int].ty is Int
            &&& fields[s as int].strategy.dec_codec() is None
        },
        Strategy::LengthOf(t) => t < fields.len() && f.ty is Int,
        _ => true,
    }
    &&& (f.strategy.dec_codec() is None && !(f.strategy is ExplicitLength)) ==> !(f.ty is Bytes)
        && !(f.ty is Text)
    &&& (f.ty is Greedy && f.strategy.dec_codec() is None) ==> i == fields.len() - 1
    &&& (f.ty is Record || f.ty is List) ==> f.strategy is With
}

/// Every field of the schema is well formed.
pub open spec fn schema_wf(fields: Seq<Field>, ncodecs: nat) -> bool {
    forall|i: int| 0 <= i < fields.len() ==> #[trigger] field_wf_in(fields, ncodecs, i)
}

impl<C: FieldCodec> Schema<C> {
    pub open spec fn n(&self) -> nat {
        self.fields@.len()
    }

    pub open spec fn codec_ok(&self, c: Option<usize>) -> bool {
        codec_in(c, self.codecs@.len())
    }

    pub open spec fn field_wf(&self, i: int) -> bool {
        field_wf_in(self.fields@, self.codecs@.len(), i)
    }

    pub open spec fn wf(&self) -> bool {
        schema_wf(self.fields@, self.codecs@.len())
    }

    /// Every field's overridden operations agree (see [`Strategy::consistent`]).
    pub open spec fn consistent(&self) -> bool {
        forall|i: int| 0 <= i < self.n() ==> (#[trigger] self.fields@[i]).strategy.consistent()
    }

    /// The values form a record of this schema.
    pub open spec fn typed(&self, vals: Seq<ValueModel>) -> bool {
        &&& vals.len() == self.n()
        &&& forall|i: int|
            0 <= i < self.n() ==> {
                let f = #[trigger] self.fields@[i];
                fits(f.ty, vals[i])
            }
    }

    /// What the resolved length operation of field `i` gives: its length, or
    /// the error a caller-supplied length function reports.
    pub open spec fn field_len_result(&self, vals: Seq<ValueModel>, i: int) -> Result<nat, Error> {
        let f = self.fields@[i];
        match f.strategy.len_codec() {
            Some(c) => match self.codecs@[c as int].spec_enc_len(vals[i]) {
                Ok(l) => Ok(l as nat),
                Err(e) => Err(e),
            },
            None => Ok(self.field_len(vals, i)),
        }
    }

    /// What `encode_len` computes from field `i` on, `acc` bytes being
    /// counted already: the first error of a field, or `Length` as soon as
    /// the running sum leaves `usize`.
    pub open spec fn len_run(&self, vals: Seq<ValueModel>, i: int, acc: nat) -> Result<nat, Error>
        decreases self.n() - i,
    {
        if i < 0 || i >= self.n() {
            Ok(acc)
        } else {
            match self.field_len_result(vals, i) {
                Err(e) => Err(e),
                Ok(m) => if m > usize::MAX || acc + m > usize::MAX {
                    Err(Error::Length)
                } else {
                    self.len_run(vals, i + 1, acc + m)
                },
            }
        }
    }

    /// What writing field `i` into `room` bytes gives: the bytes written, or
    /// the field's error (`Length` when it does not fit).
    pub open spec fn field_enc_result(&self, vals: Seq<ValueModel>, i: int, room: nat) -> Result<
        nat,
        Error,
    > {
        let f = self.fields@[i];
        match f.strategy.enc_codec() {
            Some(c) => match self.codecs@[c as int].spec_enc(vals[i], room) {
                Ok(m) => Ok(m as nat),
                Err(e) => Err(e),
            },
            None => match (f.strategy, f.ty) {
                (Strategy::LengthOf(t), FieldType::Int(k)) => match self.field_len_result(
                    vals,
                    t as int,
                ) {
                    Err(e) => Err(e),
                    Ok(l) => if l > usize::MAX || l > k.max_value() || k.spec_width() > room {
                        Err(Error::Length)
                    } else {
                        Ok(k.spec_width())
                    },
                },
                _ => if plain_encodable(f.ty, vals[i]) && plain_wire(f.ty, vals[i]).len()
                    <= room {
                    Ok(plain_wire(f.ty, vals[i]).len())
                } else {
                    Err(Error::Length)
                },
            },
        }
    }

    /// What encoding fields `i..` at offset `pos` of a buffer of `room` bytes
    /// gives: the end offset, or the first field's error.
    pub open spec fn enc_run(&self, vals: Seq<ValueModel>, i: int, pos: nat, room: nat) -> Result<
        nat,
        Error,
    >
        decreases self.n() - i,
    {
        if i < 0 || i >= self.n() {
            Ok(pos)
        } else {
            match self.field_enc_result(vals, i, (room - pos) as nat) {
                Err(e) => Err(e),
                Ok(m) => self.enc_run(vals, i + 1, pos + m, room),
            }
        }
    }

    /// The field at which encoding stops: the first that fails, or `n`.
    pub open spec fn stop_index(&self, vals: Seq<ValueModel>, i: int, pos: nat, room: nat) -> int
        decreases self.n() - i,
    {
        if i < 0 || i >= self.n() {
            self.n() as int
        } else {
            match self.field_enc_result(vals, i, (room - pos) as nat) {
                Err(_) => i,
                Ok(m) => self.stop_index(vals, i + 1, pos + m, room),
            }
        }
    }

    /// A field that is written takes as many bytes as its encoding has.
    pub proof fn lemma_field_enc_len(&self, vals: Seq<ValueModel>, i: int, room: nat)
        requires
            0 <= i < self.n(),
            self.field_wf(i),
        ensures
            self.field_enc_result(vals, i, room) matches Ok(m) ==> m == self.field_wire(
                vals,
                i,
            ).len() && m <= room,
    {
        let f = self.fields@[i];
        if let Some(c) = f.strategy.enc_codec() {
            self.codecs@[c as int].lemma_enc_ok(vals[i], room);
        } else {
            if let (Strategy::LengthOf(t), FieldType::Int(k)) = (f.strategy, f.ty) {
                k.lemma_wire_len(self.field_len(vals, t as int) as int);
            }
        }
    }

    /// The encodings of the fields before `j`, in order.
    pub open spec fn prefix_wire(&self, vals: Seq<ValueModel>, j: int) -> Seq<u8>
        decreases j,
    {
        if j <= 0 {
            seq![]
        } else {
            self.prefix_wire(vals, j - 1) + self.field_wire(vals, j - 1)
        }
    }

    /// Length of field `i` as its resolved length operation computes it.
    pub open spec fn field_len(&self, vals: Seq<ValueModel>, i: int) -> nat {
        let f = self.fields@[i];
        match f.strategy.len_codec() {
            Some(c) => match self.codecs@[c as int].spec_enc_len(vals[i]) {
                Ok(l) => l as nat,
                Err(_) => self.codecs@[c as int].spec_wire(vals[i]).len(),
            },
            None => plain_wire(f.ty, vals[i]).len(),
        }
    }

    /// Bytes field `i` encodes to; a length-of field holds the length of its
    /// target, whatever value it was given.
    pub open spec fn field_wire(&self, vals: Seq<ValueModel>, i: int) -> Seq<u8> {
        let f = self.fields@[i];
        match f.strategy.enc_codec() {
            Some(c) => self.codecs@[c as int].spec_wire(vals[i]),
            None => match (f.strategy, f.ty) {
                (Strategy::LengthOf(t), FieldType::Int(k)) => k.wire(
                    self.field_len(vals, t as int) as int,
                ),
                _ => plain_wire(f.ty, vals[i]),
            },
        }
    }

    /// Field `i` can be written: a codec that encodes it accepts its value, a
    /// derived length is computed without error and fits its integer, a
    /// length prefix holds its body's length.
    pub open spec fn field_encodable(&self, vals: Seq<ValueModel>, i: int) -> bool {
        let f = self.fields@[i];
        match f.strategy.enc_codec() {
            Some(c) => self.codecs@[c as int].accepts(vals[i]),
            None => match (f.strategy, f.ty) {
                (Strategy::LengthOf(t), FieldType::Int(k)) => self.field_len_result(
                    vals,
                    t as int,
                ) is Ok && self.field_len(vals, t as int) <= k.max_value() && self.field_len(
                    vals,
                    t as int,
                ) <= usize::MAX,
                _ => plain_encodable(f.ty, vals[i]),
            },
        }
    }

    pub open spec fn wire_from(&self, vals: Seq<ValueModel>, i: int) -> Seq<u8>
        decreases self.n() - i,
    {
        if i < 0 || i >= self.n() {
            seq![]
        } else {
            self.field_wire(vals, i) + self.wire_from(vals, i + 1)
        }
    }

    pub open spec fn len_from(&self, vals: Seq<ValueModel>, i: int) -> nat
        decreases self.n() - i,
    {
        if i < 0 || i >= self.n() {
            0
        } else {
            self.field_len(vals, i) + self.len_from(vals, i + 1)
        }
    }

    pub open spec fn encodable_from(&self, vals: Seq<ValueModel>, i: int) -> bool
        decreases self.n() - i,
    {
        if i < 0 || i >= self.n() {
            true
        } else {
            self.field_encodable(vals, i) && self.encodable_from(vals, i + 1)
        }
    }

    /// The encoding of a record: its fields' encodings in declared order.
    pub open spec fn spec_wire(&self, vals: Seq<ValueModel>) -> Seq<u8> {
        self.wire_from(vals, 0)
    }

    /// The sum of the fields' lengths, as `encode_len` computes it.
    pub open spec fn spec_len(&self, vals: Seq<ValueModel>) -> nat {
        self.len_from(vals, 0)
    }

    pub open spec fn encodable(&self, vals: Seq<ValueModel>) -> bool {
        self.encodable_from(vals, 0)
    }

    /// What `encode` returns for the record `vals` and a buffer of `room`
    /// bytes.
    pub open spec fn encode_result(&self, vals: Seq<ValueModel>, room: nat) -> Result<
        usize,
        Error,
    > {
        as_size(self.enc_run(vals, 0, 0, room))
    }

    /// What `encode_len` returns for the record `vals`.
    pub open spec fn encode_len_result(&self, vals: Seq<ValueModel>) -> Result<usize, Error> {
        as_size(self.len_run(vals, 0, 0))
    }

    /// What field `i` decodes to from the start of `buf`, given the fields
    /// decoded before it.
    pub open spec fn decode_field(&self, i: int, buf: Seq<u8>, acc: Seq<ValueModel>) -> Result<
        (ValueModel, nat),
        Error,
    > {
        let f = self.fields@[i];
        match f.strategy.dec_codec() {
            Some(c) => match self.codecs@[c as int].spec_decode(buf) {
                Ok((v, m)) => if m <= buf.len() {
                    Ok((v, m))
                } else {
                    Err(Error::Length)
                },
                Err(e) => Err(e),
            },
            None => match f.strategy {
                Strategy::ExplicitLength(s) => match acc[s as int] {
                    ValueModel::Int(x) => if x < 0 || x > buf.len() {
                        Err(Error::Length)
                    } else {
                        tagged_decode(f.ty, buf.take(x))
                    },
                    _ => Err(Error::Length),
                },
                _ => plain_decode(f.ty, buf),
            },
        }
    }

    /// Decoding of fields `i..` from `buf`, appended to `acc`, with the
    /// number of bytes they took.
    pub open spec fn decode_from(&self, buf: Seq<u8>, i: int, acc: Seq<ValueModel>) -> Result<
        (Seq<ValueModel>, nat),
        Error,
    >
        decreases self.n() - i,
    {
        if i < 0 || i >= self.n() {
            Ok((acc, 0))
        } else {
            match self.decode_field(i, buf, acc) {
                Ok((v, m)) => shifted(self.decode_from(buf.skip(m as int), i + 1, acc.push(v)), m),
                Err(e) => Err(e),
            }
        }
    }

    /// What `decode` returns for `buf`.
    pub open spec fn spec_decode(&self, buf: Seq<u8>) -> Result<(Seq<ValueModel>, nat), Error> {
        self.decode_from(buf, 0, seq![])
    }

    /// The record as decoding gives it back: each length-of field holds the
    /// length of its target.
    pub open spec fn derived(&self, vals: Seq<ValueModel>) -> Seq<ValueModel> {
        Seq::new(
            vals.len(),
            |i: int|
                match self.fields@[i].strategy {
                    Strategy::LengthOf(t) => ValueModel::Int(self.field_len(vals, t as int) as int),
                    _ => vals[i],
                },
        )
    }

    /// Each explicit-length field's sibling holds that field's length, once
    /// derived lengths are filled in.
    pub open spec fn tags_agree(&self, vals: Seq<ValueModel>) -> bool {
        forall|i: int|
            0 <= i < self.n() ==> match (#[trigger] self.fields@[i]).strategy {
                Strategy::ExplicitLength(s) => self.derived(vals)[s as int] == ValueModel::Int(
                    self.field_wire(vals, i).len() as int,
                ),
                _ => true,
            }
    }
}

impl<C: FieldCodec> Schema<C> {
    fn codec_ok_exec(&self, c: Option<usize>) -> (r: bool)
        ensures
            r == self.codec_ok(c),
    {
        match c {
            Some(i) => i < self.codecs.len(),
            None => true,
        }
    }

    fn field_wf_exec(&self, i: usize) -> (r: bool)
        requires
            i < self.n(),
        ensures
            r == self.field_wf(i as int),
    {
        let f = self.fields[i];
        if !self.codec_ok_exec(f.strategy.enc_codec_exec()) || !self.codec_ok_exec(
            f.strategy.len_codec_exec(),
        ) || !self.codec_ok_exec(f.strategy.dec_codec_exec()) {
            return false;
        }
        let directive_ok = match f.strategy {
            Strategy::ExplicitLength(s) => s < i && matches!(f.ty, FieldType::Bytes | FieldType::Text)
                && matches!(self.fields[s].ty, FieldType::Int(_)) && self.fields[s].strategy.dec_codec_exec().is_none(),
            Strategy::LengthOf(t) => t < self.fields.len() && matches!(f.ty, FieldType::Int(_)),
            _ => true,
        };
        if !directive_ok {
            return false;
        }
        let plain_dec = f.strategy.dec_codec_exec().is_none();
        if plain_dec && !matches!(f.strategy, Strategy::ExplicitLength(_)) && matches!(f.ty, FieldType::Bytes | FieldType::Text) {
            return false;
        }
        if plain_dec && matches!(f.ty, FieldType::Greedy(_)) && i != self.fields.len() - 1 {
            return false;
        }
        if matches!(f.ty, FieldType::Record | FieldType::List) && !matches!(
            f.strategy,
            Strategy::With(_),
        ) {
            return false;
        }
        true
    }

    /// Whether the schema is well formed (see [`Schema::new`]).
    pub fn check_wf(&self) -> (r: bool)
        ensures
            r == self.wf(),
    {
        let mut i: usize = 0;
        while i < self.fields.len()
            invariant
                i <= self.n(),
                forall|j: int|
                    0 <= j < i ==> #[trigger] field_wf_in(self.fields@, self.codecs@.len(), j),
            decreases self.n() - i,
        {
            if !self.field_wf_exec(i) {
                proof {
                    assert(!field_wf_in(self.fields@, self.codecs@.len(), i as int));
                }
                return false;
            }
            i = i + 1;
        }
        true
    }

    /// Whether every field's overridden operations agree.
    pub fn check_consistent(&self) -> (r: bool)
        ensures
            r == self.consistent(),
    {
        let mut i: usize = 0;
        while i < self.fields.len()
            invariant
                i <= self.n(),
                forall|j: int| 0 <= j < i ==> (#[trigger] self.fields@[j]).strategy.consistent(),
            decreases self.n() - i,
        {
            let st = self.fields[i].strategy;
            let e = st.enc_codec_exec();
            if e != st.len_codec_exec() || e != st.dec_codec_exec() {
                return false;
            }
            i = i + 1;
        }
        true
    }

    /// Whether `rec` is a record of this schema: what `encode` and
    /// `encode_len` ask of their argument.
    pub fn is_typed(&self, rec: &Vec<Value>) -> (r: bool)
        ensures
            r == self.typed(model(rec@)),
    {
        if rec.len() != self.fields.len() {
            return false;
        }
        let mut i: usize = 0;
        while i < self.fields.len()
            invariant
                i <= self.n(),
                rec@.len() == self.n(),
                forall|j: int| 0 <= j < i ==> fits(#[trigger] self.fields@[j].ty, model(rec@)[j]),
            decreases self.n() - i,
        {
            if !fits_exec(self.fields[i].ty, &rec[i]) {
                proof {
                    assert(model(rec@)[i as int] == rec@[i as int]@);
                }
                return false;
            }
            i = i + 1;
        }
        true
    }

    /// Checks the schema once, when it is assembled: `None` when a directive
    /// refers to a missing sibling or codec, or a field could not be decoded.
    pub fn new(fields: Vec<Field>, codecs: Vec<C>) -> (r: Option<Self>)
        ensures
            match r {
                Some(s) => s.wf() && s.fields@ == fields@ && s.codecs@ == codecs@,
                None => !schema_wf(fields@, codecs@.len()),
            },
    {
        let s = Schema { fields, codecs };
        let mut i: usize = 0;
        while i < s.fields.len()
            invariant
                i <= s.n(),
                forall|j: int| 0 <= j < i ==> #[trigger] field_wf_in(s.fields@, s.codecs@.len(), j),
                s.fields@ == fields@,
                s.codecs@ == codecs@,
            decreases s.n() - i,
        {
            if !s.field_wf_exec(i) {
                proof {
                    assert(!field_wf_in(s.fields@, s.codecs@.len(), i as int));
                }
                return None;
            }
            i = i + 1;
        }
        Some(s)
    }

    /// Length of field `i` by its resolved length operation.
    fn field_len_exec(&self, rec: &Vec<Value>, i: usize) -> (r: Result<usize, Error>)
        requires
            self.wf(),
            self.typed(model(rec@)),
            i < self.n(),
        ensures
            r == match self.field_len_result(model(rec@), i as int) {
                Ok(l) => size_result(l),
                Err(e) => Err::<usize, Error>(e),
            },
    {
        let f = self.fields[i];
        let v = &rec[i];
        assert(self.field_wf(i as int));
        assert(model(rec@)[i as int] == v@);
        match f.strategy.len_codec_exec() {
            Some(c) => self.codecs[c].enc_len(v),
            None => plain_len(f.ty, v),
        }
    }

    /// Encodes field `i` at the start of `buf` by its resolved strategy.
    fn encode_field(&self, rec: &Vec<Value>, i: usize, buf: &mut [u8]) -> (r: Result<usize, Error>)
        requires
            self.wf(),
            self.typed(model(rec@)),
            i < self.n(),
        ensures
            r == as_size(self.field_enc_result(model(rec@), i as int, old(buf)@.len())),
            r is Ok ==> final(buf)@ == written(old(buf)@, self.field_wire(model(rec@), i as int)),
            r is Err ==> final(buf)@ == old(buf)@,
            final(buf)@.len() == old(buf)@.len(),
    {
        let f = self.fields[i];
        let v = &rec[i];
        assert(self.field_wf(i as int));
        assert(model(rec@)[i as int] == v@);
        match f.strategy.enc_codec_exec() {
            Some(c) => self.codecs[c].enc(v, buf),
            None => match (f.strategy, f.ty) {
                (Strategy::LengthOf(t), FieldType::Int(k)) => {
                    let n = match self.field_len_exec(rec, t) {
                        Ok(n) => n,
                        Err(e) => {
                            return Err(e);
                        },
                    };
                    if n as i128 > k.max_value_exec() {
                        return Err(Error::Length);
                    }
                    proof {
                        k.lemma_wire_len(n as int);
                    }
                    k.encode_int(n as i128, buf)
                },
                _ => encode_plain(f.ty, v, buf),
            },
        }
    }

    /// Decodes field `i` from the start of `buf`, given the fields decoded
    /// before it.
    fn decode_field_exec(&self, i: usize, buf: &[u8], acc: &Vec<Value>) -> (r: Result<
        (Value, usize),
        Error,
    >)
        requires
            self.wf(),
            i < self.n(),
            acc@.len() == i,
        ensures
            decoded_as(r, self.decode_field(i as int, buf@, model(acc@))),
            r matches Ok((_, n)) ==> n <= buf@.len(),
    {
        let f = self.fields[i];
        assert(self.field_wf(i as int));
        match f.strategy.dec_codec_exec() {
            Some(c) => self.codecs[c].dec(buf),
            None => match f.strategy {
                Strategy::ExplicitLength(s) => {
                    assert(model(acc@)[s as int] == acc@[s as int]@);
                    match &acc[s] {
                        Value::Int(x) => decode_tagged(f.ty, buf, *x),
                        _ => Err(Error::Length),
                    }
                },
                _ => decode_plain(f.ty, buf),
            },
        }
    }

    /// The encoded length of the record: the sum of its fields' lengths.
    /// Fails with `Length` only when the sum exceeds what a `usize` holds.
    pub fn encode_len(&self, rec: &Vec<Value>) -> (r: Result<usize, Error>)
        requires
            self.wf(),
            self.typed(model(rec@)),
        ensures
            r == self.encode_len_result(model(rec@)),
    {
        let ghost vals = model(rec@);
        let mut total: usize = 0;
        let mut i: usize = 0;
        while i < self.fields.len()
            invariant
                self.wf(),
                self.typed(vals),
                vals == model(rec@),
                i <= self.n(),
                self.len_run(vals, 0, 0) == self.len_run(vals, i as int, total as nat),
            decreases self.n() - i,
        {
            let m = match self.field_len_exec(rec, i) {
                Ok(m) => m,
                Err(e) => {
                    return Err(e);
                },
            };
            if total > usize::MAX - m {
                return Err(Error::Length);
            }
            total = total + m;
            i = i + 1;
        }
        Ok(total)
    }

    /// Encodes the record into `buf`, field after field, stopping at the first
    /// field that fails. Bytes of the fields before it stay written.
    pub fn encode(&self, rec: &Vec<Value>, buf: &mut [u8]) -> (r: Result<usize, Error>)
        requires
            self.wf(),
            self.typed(model(rec@)),
        ensures
            r == self.encode_result(model(rec@), old(buf)@.len()),
            r is Ok ==> final(buf)@ == written(old(buf)@, self.spec_wire(model(rec@))),
            final(buf)@.len() == old(buf)@.len(),
            r matches Ok(n) ==> n == self.spec_wire(model(rec@)).len(),
            ({
                let k = self.stop_index(model(rec@), 0, 0, old(buf)@.len());
                let done = self.prefix_wire(model(rec@), k);
                &&& final(buf)@.take(done.len() as int) == done
                &&& r is Err ==> final(buf)@.skip(done.len() as int) == old(buf)@.skip(
                    done.len() as int,
                )
            }),
    {
        let ghost vals = model(rec@);
        let ghost room = old(buf)@.len();
        let mut i: usize = 0;
        let mut pos: usize = 0;
        let blen = buf.len();
        assert(self.prefix_wire(vals, 0) + self.wire_from(vals, 0) =~= self.wire_from(vals, 0));
        assert(buf@.take(0) =~= self.prefix_wire(vals, 0));
        while i < self.fields.len()
            invariant
                self.wf(),
                self.typed(vals),
                vals == model(rec@),
                room == old(buf)@.len(),
                i <= self.n(),
                pos <= room,
                blen == room,
                buf@.len() == room,
                self.prefix_wire(vals, i as int) + self.wire_from(vals, i as int) == self.wire_from(
                    vals,
                    0,
                ),
                pos == self.prefix_wire(vals, i as int).len(),
                buf@.take(pos as int) == self.prefix_wire(vals, i as int),
                buf@.skip(pos as int) == old(buf)@.skip(pos as int),
                self.enc_run(vals, 0, 0, room) == self.enc_run(vals, i as int, pos as nat, room),
                self.stop_index(vals, 0, 0, room) == self.stop_index(
                    vals,
                    i as int,
                    pos as nat,
                    room,
                ),
            decreases self.n() - i,
        {
            let ghost before = buf@;
            let (head, rest) = buf.split_at_mut(pos);
            let ghost h0 = head@;
            let ghost r0 = rest@;
            let res = self.encode_field(rec, i, rest);
            proof {
                assert(h0 =~= before.take(pos as int));
                assert(r0 =~= before.skip(pos as int));
                assert(buf@ == head@ + rest@);
                assert(head@ == h0);
                assert(buf@.take(pos as int) =~= h0);
            }
            let m = match res {
                Ok(m) => m,
                Err(e) => {
                    proof {
                        assert(buf@.skip(pos as int) =~= rest@);
                    }
                    return Err(e);
                },
            };
            proof {
                let fw = self.field_wire(vals, i as int);
                assert(self.field_wf(i as int));
                self.lemma_field_enc_len(vals, i as int, (room - pos) as nat);
                assert(self.wire_from(vals, i as int) == fw + self.wire_from(vals, i + 1));
                assert(self.prefix_wire(vals, i + 1) == self.prefix_wire(vals, i as int) + fw);
                assert(self.prefix_wire(vals, i + 1) + self.wire_from(vals, i + 1) =~= self.prefix_wire(
                    vals,
                    i as int,
                ) + self.wire_from(vals, i as int));
                assert(buf@.take(pos + m) =~= before.take(pos as int) + fw);
                assert(buf@.skip(pos + m) =~= old(buf)@.skip(pos + m));
            }
            pos = pos + m;
            i = i + 1;
        }
        proof {
            assert(self.prefix_wire(vals, i as int) + seq![] =~= self.prefix_wire(vals, i as int));
            assert(buf@ =~= written(old(buf)@, self.spec_wire(vals)));
        }
        Ok(pos)
    }

    /// Decodes a record from `buf`, field after field, each from the bytes
    /// the fields before it left; stops at the first field that fails.
    pub fn decode(&self, buf: &[u8]) -> (r: Result<(Vec<Value>, usize), Error>)
        requires
            self.wf(),
        ensures
            match r {
                Ok((v, n)) => self.spec_decode(buf@) == Ok::<(Seq<ValueModel>, nat), Error>(
                    (model(v@), n as nat),
                ),
                Err(e) => self.spec_decode(buf@) == Err::<(Seq<ValueModel>, nat), Error>(e),
            },
            r matches Ok((_, n)) ==> n <= buf@.len(),
    {
        let mut out: Vec<Value> = Vec::new();
        let mut pos: usize = 0;
        let mut i: usize = 0;
        let blen = buf.len();
        proof {
            assert(buf@.skip(0) =~= buf@);
            assert(model(out@) =~= seq![]);
            match self.spec_decode(buf@) {
                Ok((vals, n)) => {
                    assert(n + 0 == n);
                },
                Err(_) => {},
            }
        }
        while i < self.fields.len()
            invariant
                self.wf(),
                i <= self.n(),
                out@.len() == i,
                pos <= buf@.len(),
                blen == buf@.len(),
                self.spec_decode(buf@) == shifted(
                    self.decode_from(buf@.skip(pos as int), i as int, model(out@)),
                    pos as nat,
                ),
            decreases self.n() - i,
        {
            let rest = tail(buf, pos);
            let (v, m) = match self.decode_field_exec(i, rest, &out) {
                Ok(p) => p,
                Err(e) => {
                    return Err(e);
                },
            };
            proof {
                assert(rest@.skip(m as int) =~= buf@.skip(pos + m));
                assert(model(out@.push(v)) =~= model(out@).push(v@));
                let later = self.decode_from(buf@.skip(pos + m), i + 1, model(out@).push(v@));
                match later {
                    Ok((vals, k)) => {
                        assert(k + m + pos == k + (pos + m));
                    },
                    Err(_) => {},
                }
            }
            out.push(v);
            pos = pos + m;
            i = i + 1;
        }
        Ok((out, pos))
    }
}

impl<C: FieldCodec> Schema<C> {
    /// [`Schema::encode_len`], with failures reported in the record's own
    /// error type `E`.
    pub fn encode_len_as<E: From<Error>>(&self, rec: &Vec<Value>) -> (r: Result<usize, E>)
        requires
            self.wf(),
            self.typed(model(rec@)),
        ensures
            converted(self.encode_len_result(model(rec@)), r),
    {
        convert_error(self.encode_len(rec))
    }

    /// [`Schema::encode`], with failures reported in the record's own error
    /// type `E`.
    pub fn encode_as<E: From<Error>>(&self, rec: &Vec<Value>, buf: &mut [u8]) -> (r: Result<
        usize,
        E,
    >)
        requires
            self.wf(),
            self.typed(model(rec@)),
        ensures
            converted(self.encode_result(model(rec@), old(buf)@.len()), r),
            r is Ok ==> final(buf)@ == written(old(buf)@, self.spec_wire(model(rec@))),
            final(buf)@.len() == old(buf)@.len(),
    {
        convert_error(self.encode(rec, buf))
    }

    /// [`Schema::decode`], with failures reported in the record's own error
    /// type `E`.
    pub fn decode_as<E: From<Error>>(&self, buf: &[u8]) -> (r: Result<(Vec<Value>, usize), E>)
        requires
            self.wf(),
        ensures
            match r {
                Ok((v, n)) => self.spec_decode(buf@) == Ok::<(Seq<ValueModel>, nat), Error>(
                    (model(v@), n as nat),
                ),
                Err(x) => self.spec_decode(buf@) matches Err(e) && call_ensures(E::from, (e,), x),
            },
    {
        convert_error(self.decode(buf))
    }
}

} // verus!
