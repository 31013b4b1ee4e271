//! Zero-copy decoding of records: byte-string and text fields are views into
//! the input buffer rather than copies, and live only as long as it does.
use vstd::prelude::*;
use vstd::slice::slice_subrange;
use vstd::utf8::encode_utf8_decode_utf8;

use crate::bytes::tail;
use crate::error::Error;
use crate::field::decode_plain;
use crate::record::{shifted, Schema};
use crate::schema::{Field, FieldCodec, FieldType, Strategy, Value, ValueModel};
use crate::tagged::utf8_text;

verus! {

/// The value of one decoded field, borrowing from the buffer it was decoded
/// from where the field is a byte string or a text.
#[derive(Debug, PartialEq, Eq)]
pub enum Borrowed<'a> {
    Bytes(&'a [u8]),
    Text(&'a str),
    Owned(Value),
}

impl<'a> View for Borrowed<'a> {
    type V = ValueModel;

    open spec fn view(&self) -> ValueModel {
        match self {
            Borrowed::Bytes(b) => ValueModel::Bytes(b@),
            Borrowed::Text(t) => ValueModel::Text(t@),
            Borrowed::Owned(v) => v@,
        }
    }
}

/// The models of borrowed field values, in field order.
pub open spec fn borrowed_model<'a>(rec: Seq<Borrowed<'a>>) -> Seq<ValueModel> {
    rec.map_values(|v: Borrowed<'a>| v@)
}

/// A field the type's own codec decodes as a byte string or a text comes back
/// as a view into the buffer, not a copy.
pub open spec fn borrows<'a>(f: Field, v: Borrowed<'a>) -> bool {
    &&& (f.strategy.dec_codec() is None && (f.ty is Bytes || f.ty is Prefixed)) ==> v is Bytes
    &&& (f.strategy.dec_codec() is None && f.ty is Text) ==> v is Text
}

/// The integer a decoded field holds, if it is one.
fn int_of(v: &Borrowed) -> (r: Option<i128>)
    ensures
        match v@ {
            ValueModel::Int(x) => r == Some(x as i128),
            _ => r is None,
        },
{
    match v {
        Borrowed::Owned(Value::Int(x)) => Some(*x),
        _ => None,
    }
}

impl<C: FieldCodec> Schema<C> {
    /// Decodes field `i` from the start of `buf`, borrowing byte strings and
    /// texts from it.
    fn decode_field_borrowed<'a>(&self, i: usize, buf: &'a [u8], acc: &Vec<Borrowed<'a>>) -> (r:
        Result<(Borrowed<'a>, usize), Error>)
        requires
            self.wf(),
            i < self.n(),
            acc@.len() == i,
        ensures
            match r {
                Ok((v, n)) => self.decode_field(i as int, buf@, borrowed_model(acc@)) == Ok::<
                    (ValueModel, nat),
                    Error,
                >((v@, n as nat)) && n <= buf@.len() && borrows(self.fields@[i as int], v),
                Err(e) => self.decode_field(i as int, buf@, borrowed_model(acc@)) == Err::<
                    (ValueModel, nat),
                    Error,
                >(e),
            },
    {
        let f = self.fields[i];
        assert(self.field_wf(i as int));
        if let Some(c) = f.strategy.dec_codec_exec() {
            return match self.codecs[c].dec(buf) {
                Ok((v, n)) => Ok((Borrowed::Owned(v), n)),
                Err(e) => Err(e),
            };
        }
        match f.strategy {
            Strategy::ExplicitLength(s) => {
                assert(borrowed_model(acc@)[s as int] == acc@[s as int]@);
                let x = match int_of(&acc[s]) {
                    Some(x) => x,
                    None => {
                        return Err(Error::Length);
                    },
                };
                if x < 0 || x > buf.len() as i128 {
                    return Err(Error::Length);
                }
                let len = x as usize;
                let body = slice_subrange(buf, 0, len);
                assert(body@ =~= buf@.take(x as int));
                match f.ty {
                    FieldType::Bytes => Ok((Borrowed::Bytes(body), len)),
                    FieldType::Text => match utf8_text(body) {
                        Some(t) => {
                            proof {
                                encode_utf8_decode_utf8(t@);
                            }
                            Ok((Borrowed::Text(t), len))
                        },
                        None => Err(Error::Utf8),
                    },
                    _ => Err(Error::Length),
                }
            },
            _ => match f.ty {
                FieldType::Prefixed(k) => {
                    let w = k.width();
                    match k.decode_int(buf) {
                        Ok((l, _)) => {
                            if l < 0 || l > (buf.len() - w) as i128 {
                                return Err(Error::Length);
                            }
                            let body = slice_subrange(buf, w, w + l as usize);
                            Ok((Borrowed::Bytes(body), w + l as usize))
                        },
                        Err(e) => Err(e),
                    }
                },
                _ => match decode_plain(f.ty, buf) {
                    Ok((v, n)) => Ok((Borrowed::Owned(v), n)),
                    Err(e) => Err(e),
                },
            },
        }
    }

    /// Decodes a record from `buf` as [`Schema::decode`] does, but without
    /// copying: byte-string and text fields are views into `buf`.
    pub fn decode_borrowed<'a>(&self, buf: &'a [u8]) -> (r: Result<(Vec<Borrowed<'a>>, usize), Error>)
        requires
            self.wf(),
        ensures
            match r {
                Ok((v, n)) => self.spec_decode(buf@) == Ok::<(Seq<ValueModel>, nat), Error>(
                    (borrowed_model(v@), n as nat),
                ),
                Err(e) => self.spec_decode(buf@) == Err::<(Seq<ValueModel>, nat), Error>(e),
            },
            r matches Ok((v, n)) ==> n <= buf@.len() && forall|i: int|
                0 <= i < v@.len() ==> borrows(self.fields@[i], #[trigger] v@[i]),
    {
        let mut out: Vec<Borrowed<'a>> = Vec::new();
        let mut pos: usize = 0;
        let mut i: usize = 0;
        let blen = buf.len();
        proof {
            assert(buf@.skip(0) =~= buf@);
            assert(borrowed_model(out@) =~= seq![]);
            match self.spec_decode(buf@) {
                Ok((vals, n)) => {
                    assert(n + 0 == n);
                },
                Err(_) => {},
            }
        }
        while i < self.fields.len()
            invariant
                self.wf(),
                i <= self.n(),
                out@.len() == i,
                pos <= buf@.len(),
                forall|j: int| 0 <= j < i ==> borrows(self.fields@[j], #[trigger] out@[j]),
                blen == buf@.len(),
                self.spec_decode(buf@) == shifted(
                    self.decode_from(buf@.skip(pos as int), i as int, borrowed_model(out@)),
                    pos as nat,
                ),
            decreases self.n() - i,
        {
            let rest = tail(buf, pos);
            let (v, m) = match self.decode_field_borrowed(i, rest, &out) {
                Ok(p) => p,
                Err(e) => {
                    return Err(e);
                },
            };
            proof {
                assert(rest@.skip(m as int) =~= buf@.skip(pos + m));
                assert(borrowed_model(out@.push(v)) =~= borrowed_model(out@).push(v@));
                let later = self.decode_from(
                    buf@.skip(pos + m),
                    i + 1,
                    borrowed_model(out@).push(v@),
                );
                match later {
                    Ok((vals, k)) => {
                        assert(k + m + pos == k + (pos + m));
                    },
                    Err(_) => {},
                }
            }
            out.push(v);
            pos = pos + m;
            i = i + 1;
        }
        Ok((out, pos))
    }
}

} // verus!
