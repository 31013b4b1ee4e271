//! What holds of every record of a well-formed schema: the length computed
//! equals the length written, decoding gives back what was encoded, and a
//! length-of field decodes to the real length of its target.
use vstd::prelude::*;
use vstd::utf8::{encode_utf8_decode_utf8, encode_utf8_valid_utf8, valid_utf8};

use crate::bytes::size_result;
use crate::record::Schema;
use crate::schema::{fits, FieldCodec, FieldType, Strategy, ValueModel};
use crate::sequence::{
    lemma_decode_ints_prefix,
    lemma_decode_greedy_round_trip, lemma_decode_ints_round_trip, lemma_ints_wire_len,
};

verus! {

/// The preconditions of the round trip: a well-formed schema whose codec
/// overrides agree, and a record of it that can be written and whose
/// explicit lengths match their fields.
pub open spec fn round_trip_ok<C: FieldCodec>(schema: &Schema<C>, vals: Seq<ValueModel>) -> bool {
    &&& schema.wf()
    &&& schema.consistent()
    &&& schema.typed(vals)
    &&& schema.encodable(vals)
    &&& schema.tags_agree(vals)
}

/// No field of the schema runs to the end of the buffer.
pub open spec fn no_greedy<C: FieldCodec>(schema: &Schema<C>) -> bool {
    forall|i: int|
        0 <= i < schema.n() ==> !((#[trigger] schema.fields@[i]).ty is Greedy
            && schema.fields@[i].strategy.dec_codec() is None)
}

proof fn lemma_field_len<C: FieldCodec>(schema: &Schema<C>, vals: Seq<ValueModel>, i: int)
    requires
        schema.wf(),
        schema.consistent(),
        schema.typed(vals),
        0 <= i < schema.n(),
    ensures
        schema.field_len(vals, i) == schema.field_wire(vals, i).len(),
{
    let f = schema.fields@[i];
    assert(schema.field_wf(i));
    assert(f.strategy.consistent());
    assert(fits(f.ty, vals[i]));
    if let Some(c) = f.strategy.enc_codec() {
        schema.codecs@[c as int].lemma_enc_ok(vals[i], 0);
    } else {
        if let Strategy::LengthOf(t) = f.strategy {
            if let FieldType::Int(k) = f.ty {
                if let ValueModel::Int(x) = vals[i] {
                    k.lemma_wire_len(x);
                }
                k.lemma_wire_len(schema.field_len(vals, t as int) as int);
            }
        }
    }
}

proof fn lemma_len_from<C: FieldCodec>(schema: &Schema<C>, vals: Seq<ValueModel>, i: int)
    requires
        schema.wf(),
        schema.consistent(),
        schema.typed(vals),
        0 <= i <= schema.n(),
    ensures
        schema.len_from(vals, i) == schema.wire_from(vals, i).len(),
    decreases schema.n() - i,
{
    if i < schema.n() {
        lemma_field_len(schema, vals, i);
        lemma_len_from(schema, vals, i + 1);
    }
}

/// Length accuracy: for every record of a well-formed schema whose overrides
/// agree, the length `encode_len` computes is the number of bytes `encode`
/// writes.
pub proof fn lemma_length_accuracy<C: FieldCodec>(schema: &Schema<C>, vals: Seq<ValueModel>)
    requires
        schema.wf(),
        schema.consistent(),
        schema.typed(vals),
    ensures
        schema.spec_len(vals) == schema.spec_wire(vals).len(),
{
    lemma_len_from(schema, vals, 0);
}

proof fn lemma_field_enc_ok<C: FieldCodec>(
    schema: &Schema<C>,
    vals: Seq<ValueModel>,
    i: int,
    room: nat,
)
    requires
        schema.wf(),
        schema.typed(vals),
        0 <= i < schema.n(),
        room <= usize::MAX,
        schema.field_encodable(vals, i),
    ensures
        schema.field_enc_result(vals, i, room) == if schema.field_wire(vals, i).len() <= room {
            Ok::<nat, crate::error::Error>(schema.field_wire(vals, i).len())
        } else {
            Err(crate::error::Error::Length)
        },
{
    let f = schema.fields@[i];
    assert(schema.field_wf(i));
    if let Some(c) = f.strategy.enc_codec() {
        schema.codecs@[c as int].lemma_accepted(vals[i], room);
    } else {
        if let (Strategy::LengthOf(t), FieldType::Int(k)) = (f.strategy, f.ty) {
            k.lemma_wire_len(schema.field_len(vals, t as int) as int);
        }
    }
}

proof fn lemma_enc_run<C: FieldCodec>(
    schema: &Schema<C>,
    vals: Seq<ValueModel>,
    i: int,
    pos: nat,
    room: nat,
)
    requires
        schema.wf(),
        schema.typed(vals),
        0 <= i <= schema.n(),
        pos <= room,
        room <= usize::MAX,
        schema.encodable_from(vals, i),
    ensures
        schema.enc_run(vals, i, pos, room) == if pos + schema.wire_from(vals, i).len() <= room {
            Ok::<nat, crate::error::Error>(pos + schema.wire_from(vals, i).len())
        } else {
            Err(crate::error::Error::Length)
        },
    decreases schema.n() - i,
{
    if i < schema.n() {
        lemma_field_enc_ok(schema, vals, i, (room - pos) as nat);
        let fw = schema.field_wire(vals, i);
        if fw.len() <= room - pos {
            lemma_enc_run(schema, vals, i + 1, pos + fw.len(), room);
        }
    }
}

/// What `encode` returns for a record whose fields can all be written:
/// exactly its encoded length when the buffer holds it, else `Length`.
pub proof fn lemma_encode_result<C: FieldCodec>(
    schema: &Schema<C>,
    vals: Seq<ValueModel>,
    room: nat,
)
    requires
        schema.wf(),
        schema.typed(vals),
        schema.encodable(vals),
        room <= usize::MAX,
    ensures
        schema.encode_result(vals, room) == if schema.spec_wire(vals).len() <= room {
            Ok::<usize, crate::error::Error>(schema.spec_wire(vals).len() as usize)
        } else {
            Err(crate::error::Error::Length)
        },
{
    lemma_enc_run(schema, vals, 0, 0, room);
}

proof fn lemma_len_run<C: FieldCodec>(
    schema: &Schema<C>,
    vals: Seq<ValueModel>,
    i: int,
    acc: nat,
)
    requires
        schema.wf(),
        schema.consistent(),
        schema.typed(vals),
        0 <= i <= schema.n(),
        acc <= usize::MAX,
        schema.encodable_from(vals, i),
    ensures
        schema.len_run(vals, i, acc) == if acc + schema.len_from(vals, i) <= usize::MAX {
            Ok::<nat, crate::error::Error>(acc + schema.len_from(vals, i))
        } else {
            Err(crate::error::Error::Length)
        },
    decreases schema.n() - i,
{
    if i < schema.n() {
        assert(schema.fields@[i].strategy.consistent());
        assert(schema.field_encodable(vals, i));
        let m = schema.field_len(vals, i);
        if let Some(c) = schema.fields@[i].strategy.len_codec() {
            schema.codecs@[c as int].lemma_accepted(vals[i], 0);
            schema.codecs@[c as int].lemma_enc_ok(vals[i], 0);
        }
        assert(m <= usize::MAX ==> schema.field_len_result(vals, i) == Ok::<
            nat,
            crate::error::Error,
        >(m));
        assert(schema.len_from(vals, i) == m + schema.len_from(vals, i + 1));
        if m <= usize::MAX && acc + m <= usize::MAX {
            lemma_len_run(schema, vals, i + 1, acc + m);
        }
    }
}

/// What `encode_len` returns for a record whose fields can all be written:
/// the sum of their lengths, or `Length` when it leaves `usize`.
pub proof fn lemma_encode_len_result<C: FieldCodec>(schema: &Schema<C>, vals: Seq<ValueModel>)
    requires
        schema.wf(),
        schema.consistent(),
        schema.typed(vals),
        schema.encodable(vals),
    ensures
        schema.encode_len_result(vals) == size_result(schema.spec_len(vals)),
{
    lemma_len_run(schema, vals, 0, 0);
}

/// Length accuracy, as results: when `encode_len` gives `Ok(l)` and the
/// buffer holds `l` bytes, `encode` gives `Ok(l)`.
pub proof fn lemma_encode_matches_len<C: FieldCodec>(
    schema: &Schema<C>,
    vals: Seq<ValueModel>,
    room: nat,
)
    requires
        schema.wf(),
        schema.consistent(),
        schema.typed(vals),
        schema.encodable(vals),
        schema.encode_len_result(vals) matches Ok(l) && l <= room,
        room <= usize::MAX,
    ensures
        schema.encode_result(vals, room) == schema.encode_len_result(vals),
{
    lemma_encode_len_result(schema, vals);
    lemma_length_accuracy(schema, vals);
    lemma_encode_result(schema, vals, room);
}

/// Overrun safety: encoding a record into a buffer shorter than the length
/// `encode_len` computes fails with `Length` (and, as `encode` states, the
/// buffer keeps its length: nothing is written past its end).
pub proof fn lemma_overrun_safety<C: FieldCodec>(
    schema: &Schema<C>,
    vals: Seq<ValueModel>,
    room: nat,
)
    requires
        schema.wf(),
        schema.consistent(),
        schema.typed(vals),
        schema.encodable(vals),
        room < schema.spec_len(vals),
        room <= usize::MAX,
    ensures
        schema.encode_result(vals, room) == Err::<usize, crate::error::Error>(
            crate::error::Error::Length,
        ),
{
    lemma_length_accuracy(schema, vals);
    lemma_encode_result(schema, vals, room);
}

proof fn lemma_encodable_field<C: FieldCodec>(schema: &Schema<C>, vals: Seq<ValueModel>, i: int)
    requires
        0 <= i < schema.n(),
        schema.encodable(vals),
    ensures
        schema.field_encodable(vals, i),
{
    lemma_encodable_from(schema, vals, 0, i);
}

proof fn lemma_encodable_from<C: FieldCodec>(
    schema: &Schema<C>,
    vals: Seq<ValueModel>,
    j: int,
    i: int,
)
    requires
        0 <= j <= i < schema.n(),
        schema.encodable_from(vals, j),
    ensures
        schema.field_encodable(vals, i),
    decreases i - j,
{
    if j < i {
        lemma_encodable_from(schema, vals, j + 1, i);
    }
}

/// One field decodes back to its derived value from its own bytes followed
/// by those of the later fields.
proof fn lemma_field_round_trip<C: FieldCodec>(
    schema: &Schema<C>,
    vals: Seq<ValueModel>,
    i: int,
    tail: Seq<u8>,
)
    requires
        round_trip_ok(schema, vals),
        0 <= i < schema.n(),
        tail.len() == 0 || no_greedy(schema),
    ensures
        schema.decode_field(
            i,
            schema.field_wire(vals, i) + (schema.wire_from(vals, i + 1) + tail),
            schema.derived(vals).take(i),
        ) == Ok::<(ValueModel, nat), crate::error::Error>(
            (schema.derived(vals)[i], schema.field_wire(vals, i).len()),
        ),
{
    let f = schema.fields@[i];
    let v = vals[i];
    let fw = schema.field_wire(vals, i);
    let rest = schema.wire_from(vals, i + 1) + tail;
    let buf = fw + rest;
    let d = schema.derived(vals);
    let acc = d.take(i);
    assert(schema.field_wf(i));
    assert(f.strategy.consistent());
    assert(fits(f.ty, v));
    lemma_encodable_field(schema, vals, i);
    match f.strategy.dec_codec() {
        Some(c) => {
            let codec = schema.codecs@[c as int];
            assert(codec.accepts(v));
            codec.lemma_codec_round_trip(v, rest);
        },
        None => {
            match f.strategy {
                Strategy::ExplicitLength(s) => {
                    assert(d[s as int] == ValueModel::Int(fw.len() as int));
                    assert(acc[s as int] == d[s as int]);
                    assert(buf.take(fw.len() as int) =~= fw);
                    if let ValueModel::Text(c) = v {
                        encode_utf8_valid_utf8(c);
                        encode_utf8_decode_utf8(c);
                    }
                },
                Strategy::LengthOf(t) => {
                    if let FieldType::Int(k) = f.ty {
                        let l = schema.field_len(vals, t as int);
                        k.lemma_round_trip(l as int, rest);
                        k.lemma_wire_len(l as int);
                    }
                },
                _ => {
                    match (f.ty, v) {
                        (FieldType::Int(k), ValueModel::Int(x)) => {
                            k.lemma_round_trip(x, rest);
                        },
                        (FieldType::Array(k, n), ValueModel::Ints(s)) => {
                            lemma_decode_ints_round_trip(k, s, rest);
                            lemma_ints_wire_len(k, s);
                        },
                        (FieldType::Greedy(k), ValueModel::Ints(s)) => {
                            assert(i == schema.n() - 1);
                            assert(!no_greedy(schema));
                            assert(rest =~= Seq::<u8>::empty());
                            assert(buf =~= fw);
                            lemma_decode_greedy_round_trip(k, s);
                        },
                        (FieldType::Prefixed(k), ValueModel::Bytes(b)) => {
                            k.lemma_round_trip(b.len() as int, b + rest);
                            k.lemma_wire_len(b.len() as int);
                            let w = k.spec_width();
                            assert(buf =~= k.wire(b.len() as int) + (b + rest));
                            assert(buf.subrange(w as int, (w + b.len()) as int) =~= b);
                        },
                        _ => {},
                    }
                },
            }
        },
    }
}

proof fn lemma_round_trip_from<C: FieldCodec>(
    schema: &Schema<C>,
    vals: Seq<ValueModel>,
    i: int,
    tail: Seq<u8>,
)
    requires
        round_trip_ok(schema, vals),
        0 <= i <= schema.n(),
        tail.len() == 0 || no_greedy(schema),
    ensures
        schema.decode_from(schema.wire_from(vals, i) + tail, i, schema.derived(vals).take(i))
            == Ok::<(Seq<ValueModel>, nat), crate::error::Error>(
            (schema.derived(vals), schema.wire_from(vals, i).len()),
        ),
    decreases schema.n() - i,
{
    let d = schema.derived(vals);
    if i == schema.n() {
        assert(d.take(i) =~= d);
    } else {
        let fw = schema.field_wire(vals, i);
        let rest = schema.wire_from(vals, i + 1);
        lemma_field_round_trip(schema, vals, i, tail);
        lemma_round_trip_from(schema, vals, i + 1, tail);
        assert(schema.wire_from(vals, i) + tail =~= fw + (rest + tail));
        assert((fw + (rest + tail)).skip(fw.len() as int) =~= rest + tail);
        assert(d.take(i).push(d[i]) =~= d.take(i + 1));
    }
}

/// Round trip: decoding the encoding of a record gives back the record, with
/// each length-of field holding its target's length, and consumes exactly
/// the bytes written.
pub proof fn lemma_round_trip<C: FieldCodec>(schema: &Schema<C>, vals: Seq<ValueModel>)
    requires
        round_trip_ok(schema, vals),
    ensures
        schema.spec_decode(schema.spec_wire(vals)) == Ok::<
            (Seq<ValueModel>, nat),
            crate::error::Error,
        >((schema.derived(vals), schema.spec_wire(vals).len())),
{
    lemma_round_trip_from(schema, vals, 0, seq![]);
    assert(schema.spec_wire(vals) + seq![] =~= schema.spec_wire(vals));
    assert(schema.derived(vals).take(0) =~= seq![]);
}

/// Round trip within a larger buffer: when no field decodes greedily,
/// decoding a record's encoding followed by any bytes gives the record back
/// and consumes exactly its encoding, leaving the bytes after it.
pub proof fn lemma_round_trip_prefix<C: FieldCodec>(
    schema: &Schema<C>,
    vals: Seq<ValueModel>,
    tail: Seq<u8>,
)
    requires
        round_trip_ok(schema, vals),
        no_greedy(schema),
    ensures
        schema.spec_decode(schema.spec_wire(vals) + tail) == Ok::<
            (Seq<ValueModel>, nat),
            crate::error::Error,
        >((schema.derived(vals), schema.spec_wire(vals).len())),
{
    lemma_round_trip_from(schema, vals, 0, tail);
    assert(schema.derived(vals).take(0) =~= seq![]);
}

/// Derived length fidelity: after a full encode and decode, a length-of field
/// holds the encoded length of its target, whatever value it had before
/// encoding.
pub proof fn lemma_derived_length<C: FieldCodec>(
    schema: &Schema<C>,
    vals: Seq<ValueModel>,
    i: int,
    t: usize,
)
    requires
        round_trip_ok(schema, vals),
        0 <= i < schema.n(),
        schema.fields@[i].strategy == Strategy::LengthOf(t),
    ensures
        schema.spec_decode(schema.spec_wire(vals)) matches Ok((out, _)) && out[i]
            == ValueModel::Int(schema.field_wire(vals, t as int).len() as int),
{
    lemma_round_trip(schema, vals);
    assert(schema.field_wf(i));
    lemma_field_len(schema, vals, t as int);
}

/// UTF-8 rejection: when a text field whose length a sibling gives is reached
/// and its bytes are not valid UTF-8, decoding the rest of the record fails
/// with `Utf8`; no text and no record is produced.
pub proof fn lemma_utf8_rejection<C: FieldCodec>(
    schema: &Schema<C>,
    buf: Seq<u8>,
    i: int,
    acc: Seq<ValueModel>,
    s: usize,
    x: int,
)
    requires
        schema.wf(),
        0 <= i < schema.n(),
        schema.fields@[i].ty == FieldType::Text,
        schema.fields@[i].strategy == Strategy::ExplicitLength(s),
        acc[s as int] == ValueModel::Int(x),
        0 <= x <= buf.len(),
        !valid_utf8(buf.take(x)),
    ensures
        schema.decode_from(buf, i, acc) == Err::<(Seq<ValueModel>, nat), crate::error::Error>(
            crate::error::Error::Utf8,
        ),
{
}

/// A field that decodes from `buf` decodes the same from `buf` followed by
/// any bytes, unless it runs greedily to the end of the buffer.
proof fn lemma_field_prefix<C: FieldCodec>(
    schema: &Schema<C>,
    i: int,
    buf: Seq<u8>,
    extra: Seq<u8>,
    acc: Seq<ValueModel>,
)
    requires
        schema.wf(),
        no_greedy(schema),
        0 <= i < schema.n(),
        schema.decode_field(i, buf, acc) is Ok,
    ensures
        schema.decode_field(i, buf + extra, acc) == schema.decode_field(i, buf, acc),
{
    let f = schema.fields@[i];
    assert(schema.field_wf(i));
    let whole = buf + extra;
    match f.strategy.dec_codec() {
        Some(c) => {
            schema.codecs@[c as int].lemma_codec_prefix(buf, extra);
        },
        None => {
            match f.strategy {
                Strategy::ExplicitLength(s) => {
                    if let ValueModel::Int(x) = acc[s as int] {
                        if 0 <= x <= buf.len() {
                            assert(whole.take(x) =~= buf.take(x));
                        }
                    }
                },
                _ => {
                    match f.ty {
                        FieldType::Int(k) => {
                            assert(whole.take(k.spec_width() as int) =~= buf.take(
                                k.spec_width() as int,
                            ));
                        },
                        FieldType::Array(k, n) => {
                            lemma_decode_ints_prefix(k, buf, extra, n as nat);
                        },
                        FieldType::Prefixed(k) => {
                            let w = k.spec_width() as int;
                            assert(whole.take(w) =~= buf.take(w));
                            let l = k.value_of(buf);
                            if 0 <= l && w + l <= buf.len() {
                                assert(whole.subrange(w, w + l) =~= buf.subrange(w, w + l));
                            }
                        },
                        _ => {},
                    }
                },
            }
        },
    }
}

proof fn lemma_decode_from_prefix<C: FieldCodec>(
    schema: &Schema<C>,
    buf: Seq<u8>,
    extra: Seq<u8>,
    i: int,
    acc: Seq<ValueModel>,
)
    requires
        schema.wf(),
        no_greedy(schema),
        0 <= i <= schema.n(),
        schema.decode_from(buf, i, acc) is Ok,
    ensures
        schema.decode_from(buf + extra, i, acc) == schema.decode_from(buf, i, acc),
    decreases schema.n() - i,
{
    if i < schema.n() {
        lemma_field_prefix(schema, i, buf, extra, acc);
        if let FieldType::Array(k, n) = schema.fields@[i].ty {
            crate::sequence::lemma_decode_ints_len(k, buf, n as nat);
        }
        if let Ok((v, m)) = schema.decode_field(i, buf, acc) {
            assert(m <= buf.len());
            assert((buf + extra).skip(m as int) =~= buf.skip(m as int) + extra);
            lemma_decode_from_prefix(schema, buf.skip(m as int), extra, i + 1, acc.push(v));
        }
    }
}

/// Fields never read past their own bytes: when no field decodes greedily,
/// bytes appended after a record never change how it decodes.
pub proof fn lemma_decode_prefix<C: FieldCodec>(schema: &Schema<C>, buf: Seq<u8>, extra: Seq<u8>)
    requires
        schema.wf(),
        no_greedy(schema),
        schema.spec_decode(buf) is Ok,
    ensures
        schema.spec_decode(buf + extra) == schema.spec_decode(buf),
{
    lemma_decode_from_prefix(schema, buf, extra, 0, seq![]);
}

/// A length `encode_len` computes is the sum of the fields' lengths.
pub proof fn lemma_len_run_ok<C: FieldCodec>(
    schema: &Schema<C>,
    vals: Seq<ValueModel>,
    i: int,
    acc: nat,
)
    requires
        0 <= i <= schema.n(),
        acc <= usize::MAX,
    ensures
        schema.len_run(vals, i, acc) matches Ok(l) ==> l == acc + schema.len_from(vals, i) && l
            <= usize::MAX,
    decreases schema.n() - i,
{
    if i < schema.n() {
        if let Ok(m) = schema.field_len_result(vals, i) {
            assert(m == schema.field_len(vals, i));
            if m <= usize::MAX && acc + m <= usize::MAX {
                lemma_len_run_ok(schema, vals, i + 1, acc + m);
            }
        }
    }
}

/// An encode that succeeds ends after the encodings of all the fields, within
/// the buffer.
pub proof fn lemma_enc_run_ok<C: FieldCodec>(
    schema: &Schema<C>,
    vals: Seq<ValueModel>,
    i: int,
    pos: nat,
    room: nat,
)
    requires
        schema.wf(),
        0 <= i <= schema.n(),
        pos <= room,
    ensures
        schema.enc_run(vals, i, pos, room) matches Ok(m) ==> m == pos + schema.wire_from(
            vals,
            i,
        ).len() && m <= room,
    decreases schema.n() - i,
{
    if i < schema.n() {
        assert(schema.field_wf(i));
        schema.lemma_field_enc_len(vals, i, (room - pos) as nat);
        if let Ok(m) = schema.field_enc_result(vals, i, (room - pos) as nat) {
            lemma_enc_run_ok(schema, vals, i + 1, pos + m, room);
        }
    }
}

} // verus!
