//! Records nested in records: a schema used as the codec of a field whose
//! value is a record, so that the round trip, length accuracy and derived
//! length laws of the outer schema hold through the nesting.
use vstd::prelude::*;
use vstd::slice::slice_subrange;

use crate::bytes::put_bytes;
use crate::error::Error;
use crate::laws::{
    lemma_derived_length, lemma_round_trip, round_trip_ok,
    lemma_decode_prefix, lemma_enc_run_ok, lemma_encode_len_result, lemma_encode_result,
    lemma_len_run_ok, lemma_length_accuracy, lemma_round_trip_prefix, no_greedy,
};
use crate::record::Schema;
use crate::schema::{model, FieldCodec, FieldType, Strategy, Value, ValueModel};

verus! {

/// A schema used as the codec of a nested record field (a field of type
/// [`FieldType::Record`] with a `with` directive naming it).
pub struct Nested<C> {
    pub schema: Schema<C>,
}

/// The model of a record value is the record of its fields' models.
proof fn lemma_record_model(r: Vec<Value>)
    ensures
        Value::Record(r)@ == ValueModel::Record(model(r@)),
{
    let whole = Value::Record(r)@;
    assert(whole is Record);
    if let ValueModel::Record(s) = whole {
        assert(s.len() == r@.len());
        assert forall|i: int| 0 <= i < s.len() implies s[i] == model(r@)[i] by {
            assert(model(r@)[i] == r@[i]@);
        }
        assert(s =~= model(r@));
    }
}

impl<C: FieldCodec> Nested<C> {
    /// The nested schema can encode records: it is well formed, its
    /// overrides agree, and no field of it runs to the end of the buffer.
    pub open spec fn usable(&self) -> bool {
        &&& self.schema.wf()
        &&& self.schema.consistent()
        &&& no_greedy(&self.schema)
    }

    /// `vals` is a record the nested schema can be asked to encode.
    pub open spec fn can_encode(&self, vals: Seq<ValueModel>) -> bool {
        self.usable() && self.schema.typed(vals)
    }

    fn usable_exec(&self) -> (r: bool)
        ensures
            r == self.usable(),
    {
        if !self.schema.check_wf() || !self.schema.check_consistent() {
            return false;
        }
        let mut i: usize = 0;
        while i < self.schema.fields.len()
            invariant
                i <= self.schema.n(),
                forall|j: int|
                    0 <= j < i ==> !((#[trigger] self.schema.fields@[j]).ty is Greedy
                        && self.schema.fields@[j].strategy.dec_codec() is None),
            decreases self.schema.n() - i,
        {
            let f = self.schema.fields[i];
            if matches!(f.ty, FieldType::Greedy(_)) && f.strategy.dec_codec_exec().is_none() {
                return false;
            }
            i = i + 1;
        }
        true
    }
}

impl<C: FieldCodec> FieldCodec for Nested<C> {
    /// A record the nested schema encodes and decodes back unchanged: it can
    /// be written, its explicit lengths agree, and its length-of fields hold
    /// their targets' lengths already.
    open spec fn accepts(&self, v: ValueModel) -> bool {
        v matches ValueModel::Record(vals) && self.can_encode(vals) && self.schema.encodable(vals)
            && self.schema.tags_agree(vals) && self.schema.derived(vals) == vals
    }

    open spec fn spec_wire(&self, v: ValueModel) -> Seq<u8> {
        match v {
            ValueModel::Record(vals) => self.schema.spec_wire(vals),
            _ => seq![],
        }
    }

    open spec fn spec_enc_len(&self, v: ValueModel) -> Result<usize, Error> {
        match v {
            ValueModel::Record(vals) => if self.can_encode(vals) {
                self.schema.encode_len_result(vals)
            } else {
                Err(Error::Length)
            },
            _ => Err(Error::Length),
        }
    }

    open spec fn spec_enc(&self, v: ValueModel, room: nat) -> Result<usize, Error> {
        match v {
            ValueModel::Record(vals) => if self.can_encode(vals) && room <= usize::MAX {
                self.schema.encode_result(vals, room)
            } else {
                Err(Error::Length)
            },
            _ => Err(Error::Length),
        }
    }

    open spec fn spec_decode(&self, buf: Seq<u8>) -> Result<(ValueModel, nat), Error> {
        if self.usable() {
            match self.schema.spec_decode(buf) {
                Ok((vals, n)) => Ok((ValueModel::Record(vals), n)),
                Err(e) => Err(e),
            }
        } else {
            Err(Error::Length)
        }
    }

    fn enc_len(&self, v: &Value) -> (r: Result<usize, Error>) {
        match v {
            Value::Record(rec) => {
                proof {
                    lemma_record_model(*rec);
                }
                if !self.usable_exec() || !self.schema.is_typed(rec) {
                    return Err(Error::Length);
                }
                self.schema.encode_len(rec)
            },
            _ => Err(Error::Length),
        }
    }

    fn enc(&self, v: &Value, buf: &mut [u8]) -> (r: Result<usize, Error>) {
        match v {
            Value::Record(rec) => {
                proof {
                    lemma_record_model(*rec);
                }
                if !self.usable_exec() || !self.schema.is_typed(rec) {
                    return Err(Error::Length);
                }
                let mut scratch: Vec<u8> = vec![0u8; buf.len()];
                let n = match self.schema.encode(rec, scratch.as_mut_slice()) {
                    Ok(n) => n,
                    Err(e) => {
                        return Err(e);
                    },
                };
                let body = slice_subrange(scratch.as_slice(), 0, n);
                proof {
                    assert(body@ =~= self.schema.spec_wire(model(rec@)));
                }
                put_bytes(buf, body)
            },
            _ => Err(Error::Length),
        }
    }

    fn dec(&self, buf: &[u8]) -> (r: Result<(Value, usize), Error>) {
        if !self.usable_exec() {
            return Err(Error::Length);
        }
        match self.schema.decode(buf) {
            Ok((rec, n)) => {
                proof {
                    lemma_record_model(rec);
                }
                Ok((Value::Record(rec), n))
            },
            Err(e) => Err(e),
        }
    }

    proof fn lemma_enc_ok(&self, v: ValueModel, room: nat) {
        if let ValueModel::Record(vals) = v {
            if self.can_encode(vals) {
                lemma_len_run_ok(&self.schema, vals, 0, 0);
                lemma_length_accuracy(&self.schema, vals);
                lemma_enc_run_ok(&self.schema, vals, 0, 0, room);
            }
        }
    }

    proof fn lemma_accepted(&self, v: ValueModel, room: nat) {
        if let ValueModel::Record(vals) = v {
            lemma_encode_len_result(&self.schema, vals);
            lemma_length_accuracy(&self.schema, vals);
            lemma_encode_result(&self.schema, vals, room);
        }
    }

    proof fn lemma_codec_round_trip(&self, v: ValueModel, rest: Seq<u8>) {
        if let ValueModel::Record(vals) = v {
            lemma_round_trip_prefix(&self.schema, vals, rest);
        }
    }

    proof fn lemma_codec_prefix(&self, buf: Seq<u8>, extra: Seq<u8>) {
        if self.usable() && self.schema.spec_decode(buf) is Ok {
            lemma_decode_prefix(&self.schema, buf, extra);
        }
    }
}

/// Round trip and derived-length fidelity through nesting: a record whose
/// fields include nested records decodes back from its encoding, each nested
/// record with them, and a length-of field of the outer record holds the
/// encoded length of its target even when that target is a nested record.
pub proof fn lemma_nested_round_trip<C: FieldCodec>(
    outer: &Schema<Nested<C>>,
    vals: Seq<ValueModel>,
    i: int,
    t: usize,
)
    requires
        round_trip_ok(outer, vals),
        0 <= i < outer.n(),
        outer.fields@[i].strategy == Strategy::LengthOf(t),
    ensures
        outer.spec_decode(outer.spec_wire(vals)) == Ok::<(Seq<ValueModel>, nat), Error>(
            (outer.derived(vals), outer.spec_wire(vals).len()),
        ),
        outer.spec_decode(outer.spec_wire(vals)) matches Ok((out, _)) && out[i]
            == ValueModel::Int(outer.field_wire(vals, t as int).len() as int),
{
    lemma_round_trip(outer, vals);
    lemma_derived_length(outer, vals, i, t);
}

} // verus!
