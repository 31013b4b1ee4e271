//! Fixed-count lists of values of any type a field codec handles: integers
//! in another layout, nested records, or lists themselves.
use vstd::prelude::*;

use crate::bytes::{put_bytes, tail};
use crate::error::Error;
use crate::schema::{model, FieldCodec, Value, ValueModel};

verus! {

/// A list of exactly `count` elements, each written by `elem`, one after
/// another.
pub struct Repeated<D> {
    pub elem: D,
    pub count: usize,
}

/// The concatenated encodings of `items` by `d`.
pub open spec fn list_wire<D: FieldCodec>(d: D, items: Seq<ValueModel>) -> Seq<u8>
    decreases items.len(),
{
    if items.len() == 0 {
        seq![]
    } else {
        d.spec_wire(items[0]) + list_wire(d, items.drop_first())
    }
}

/// What measuring `items` gives, `acc` bytes being counted already: the
/// first element's error, or `Length` once the sum leaves `usize`.
pub open spec fn list_len<D: FieldCodec>(d: D, items: Seq<ValueModel>, acc: nat) -> Result<
    usize,
    Error,
>
    decreases items.len(),
{
    if items.len() == 0 {
        Ok(acc as usize)
    } else {
        match d.spec_enc_len(items[0]) {
            Err(e) => Err(e),
            Ok(m) => if acc + m as nat > usize::MAX {
                Err(Error::Length)
            } else {
                list_len(d, items.drop_first(), acc + m as nat)
            },
        }
    }
}

/// What writing `items` into `room` bytes gives: the bytes written, or the
/// first element's error.
pub open spec fn list_enc<D: FieldCodec>(d: D, items: Seq<ValueModel>, room: nat) -> Result<
    nat,
    Error,
>
    decreases items.len(),
{
    if items.len() == 0 {
        Ok(0)
    } else {
        match d.spec_enc(items[0], room) {
            Err(e) => Err(e),
            Ok(m) => match list_enc(d, items.drop_first(), (room - m) as nat) {
                Ok(k) => Ok(m as nat + k),
                Err(e) => Err(e),
            },
        }
    }
}

/// What decoding `count` elements from the start of `buf` gives.
pub open spec fn list_dec<D: FieldCodec>(d: D, buf: Seq<u8>, count: nat) -> Result<
    (Seq<ValueModel>, nat),
    Error,
>
    decreases count,
{
    if count == 0 {
        Ok((seq![], 0))
    } else {
        match d.spec_decode(buf) {
            Ok((v, n)) => if n > buf.len() {
                Err(Error::Length)
            } else {
                match list_dec(d, buf.skip(n as int), (count - 1) as nat) {
                    Ok((s, m)) => Ok((seq![v] + s, n + m)),
                    Err(e) => Err(e),
                }
            },
            Err(e) => Err(e),
        }
    }
}

proof fn lemma_list_len_ok<D: FieldCodec>(d: D, items: Seq<ValueModel>, acc: nat)
    requires
        acc <= usize::MAX,
    ensures
        list_len(d, items, acc) matches Ok(l) ==> l == acc + list_wire(d, items).len(),
    decreases items.len(),
{
    if items.len() > 0 {
        d.lemma_enc_ok(items[0], 0);
        if let Ok(m) = d.spec_enc_len(items[0]) {
            if acc + m as nat <= usize::MAX {
                lemma_list_len_ok(d, items.drop_first(), acc + m as nat);
            }
        }
    }
}

proof fn lemma_list_enc_ok<D: FieldCodec>(d: D, items: Seq<ValueModel>, room: nat)
    ensures
        list_enc(d, items, room) matches Ok(m) ==> m == list_wire(d, items).len() && m <= room,
    decreases items.len(),
{
    if items.len() > 0 {
        d.lemma_enc_ok(items[0], room);
        if let Ok(m) = d.spec_enc(items[0], room) {
            lemma_list_enc_ok(d, items.drop_first(), (room - m) as nat);
        }
    }
}

proof fn lemma_list_accepted<D: FieldCodec>(d: D, items: Seq<ValueModel>, acc: nat, room: nat)
    requires
        forall|i: int| 0 <= i < items.len() ==> d.accepts(#[trigger] items[i]),
        acc <= usize::MAX,
        room <= usize::MAX,
    ensures
        list_len(d, items, acc) == if acc + list_wire(d, items).len() <= usize::MAX {
            Ok::<usize, Error>((acc + list_wire(d, items).len()) as usize)
        } else {
            Err(Error::Length)
        },
        list_enc(d, items, room) == if list_wire(d, items).len() <= room {
            Ok::<nat, Error>(list_wire(d, items).len())
        } else {
            Err(Error::Length)
        },
    decreases items.len(),
{
    if items.len() > 0 {
        let w = d.spec_wire(items[0]);
        assert(d.accepts(items[0]));
        d.lemma_accepted(items[0], room);
        d.lemma_accepted(items[0], 0);
        let rest = items.drop_first();
        assert forall|i: int| 0 <= i < rest.len() implies d.accepts(#[trigger] rest[i]) by {
            assert(rest[i] == items[i + 1]);
        }
        if acc + w.len() <= usize::MAX {
            if w.len() <= room {
                lemma_list_accepted(d, rest, acc + w.len(), (room - w.len()) as nat);
            } else {
                lemma_list_accepted(d, rest, acc + w.len(), 0);
            }
        } else if w.len() <= room {
            lemma_list_accepted(d, rest, 0, (room - w.len()) as nat);
        }
    }
}

proof fn lemma_list_round_trip<D: FieldCodec>(d: D, items: Seq<ValueModel>, rest: Seq<u8>)
    requires
        forall|i: int| 0 <= i < items.len() ==> d.accepts(#[trigger] items[i]),
    ensures
        list_dec(d, list_wire(d, items) + rest, items.len()) == Ok::<
            (Seq<ValueModel>, nat),
            Error,
        >((items, list_wire(d, items).len())),
    decreases items.len(),
{
    if items.len() > 0 {
        let w = d.spec_wire(items[0]);
        let more = list_wire(d, items.drop_first());
        assert(d.accepts(items[0]));
        d.lemma_codec_round_trip(items[0], more + rest);
        assert(list_wire(d, items) + rest =~= w + (more + rest));
        assert((w + (more + rest)).skip(w.len() as int) =~= more + rest);
        let tail_items = items.drop_first();
        assert forall|i: int| 0 <= i < tail_items.len() implies d.accepts(
            #[trigger] tail_items[i],
        ) by {
            assert(tail_items[i] == items[i + 1]);
        }
        lemma_list_round_trip(d, tail_items, rest);
        assert(seq![items[0]] + tail_items =~= items);
    } else {
        assert(items =~= Seq::<ValueModel>::empty());
    }
}

proof fn lemma_list_prefix<D: FieldCodec>(d: D, buf: Seq<u8>, extra: Seq<u8>, count: nat)
    ensures
        list_dec(d, buf, count) is Ok ==> list_dec(d, buf + extra, count) == list_dec(
            d,
            buf,
            count,
        ),
    decreases count,
{
    if count > 0 {
        d.lemma_codec_prefix(buf, extra);
        if let Ok((v, n)) = d.spec_decode(buf) {
            if n <= buf.len() {
                assert((buf + extra).skip(n as int) =~= buf.skip(n as int) + extra);
                lemma_list_prefix(d, buf.skip(n as int), extra, (count - 1) as nat);
            }
        }
    }
}

/// The model of a list value is the list of its elements' models.
proof fn lemma_list_model(r: Vec<Value>)
    ensures
        Value::List(r)@ == ValueModel::List(model(r@)),
{
    let whole = Value::List(r)@;
    if let ValueModel::List(s) = whole {
        assert forall|i: int| 0 <= i < s.len() implies s[i] == model(r@)[i] by {
            assert(model(r@)[i] == r@[i]@);
        }
        assert(s =~= model(r@));
    }
}

impl<D: FieldCodec> FieldCodec for Repeated<D> {
    /// A list of exactly `count` elements, each accepted by `elem`.
    open spec fn accepts(&self, v: ValueModel) -> bool {
        v matches ValueModel::List(items) && items.len() == self.count && forall|i: int|
            0 <= i < items.len() ==> self.elem.accepts(#[trigger] items[i])
    }

    open spec fn spec_wire(&self, v: ValueModel) -> Seq<u8> {
        match v {
            ValueModel::List(items) => list_wire(self.elem, items),
            _ => seq![],
        }
    }

    open spec fn spec_enc_len(&self, v: ValueModel) -> Result<usize, Error> {
        match v {
            ValueModel::List(items) => if items.len() == self.count {
                list_len(self.elem, items, 0)
            } else {
                Err(Error::Length)
            },
            _ => Err(Error::Length),
        }
    }

    open spec fn spec_enc(&self, v: ValueModel, room: nat) -> Result<usize, Error> {
        match v {
            ValueModel::List(items) => if items.len() == self.count && room <= usize::MAX {
                match list_enc(self.elem, items, room) {
                    Ok(m) => Ok(m as usize),
                    Err(e) => Err(e),
                }
            } else {
                Err(Error::Length)
            },
            _ => Err(Error::Length),
        }
    }

    open spec fn spec_decode(&self, buf: Seq<u8>) -> Result<(ValueModel, nat), Error> {
        match list_dec(self.elem, buf, self.count as nat) {
            Ok((items, n)) => Ok((ValueModel::List(items), n)),
            Err(e) => Err(e),
        }
    }

    fn enc_len(&self, v: &Value) -> (r: Result<usize, Error>) {
        let items = match v {
            Value::List(items) => items,
            _ => {
                return Err(Error::Length);
            },
        };
        proof {
            lemma_list_model(*items);
        }
        if items.len() != self.count {
            return Err(Error::Length);
        }
        let ghost all = model(items@);
        let mut total: usize = 0;
        let mut i: usize = 0;
        assert(all.skip(0) =~= all);
        while i < items.len()
            invariant
                i <= items@.len(),
                all == model(items@),
                v@ == ValueModel::List(all),
                items@.len() == self.count,
                list_len(self.elem, all, 0) == list_len(self.elem, all.skip(i as int), total as nat),
            decreases items@.len() - i,
        {
            proof {
                assert(all.skip(i as int).drop_first() =~= all.skip(i + 1));
                assert(all.skip(i as int)[0] == items@[i as int]@);
            }
            let m = match self.elem.enc_len(&items[i]) {
                Ok(m) => m,
                Err(e) => {
                    return Err(e);
                },
            };
            if total > usize::MAX - m {
                return Err(Error::Length);
            }
            total = total + m;
            i = i + 1;
        }
        assert(all.skip(i as int).len() == 0);
        Ok(total)
    }

    fn enc(&self, v: &Value, buf: &mut [u8]) -> (r: Result<usize, Error>) {
        let items = match v {
            Value::List(items) => items,
            _ => {
                return Err(Error::Length);
            },
        };
        proof {
            lemma_list_model(*items);
        }
        if items.len() != self.count {
            return Err(Error::Length);
        }
        let ghost all = model(items@);
        let ghost room = buf@.len();
        let blen = buf.len();
        let mut scratch: Vec<u8> = vec![0u8; buf.len()];
        let slen = scratch.len();
        let mut pos: usize = 0;
        let mut i: usize = 0;
        proof {
            assert(all.skip(0) =~= all);
            assert(scratch@.take(0) + list_wire(self.elem, all) =~= list_wire(self.elem, all));
            match list_enc(self.elem, all, room) {
                Ok(k) => {},
                Err(_) => {},
            }
        }
        while i < items.len()
            invariant
                i <= items@.len(),
                all == model(items@),
                v@ == ValueModel::List(all),
                items@.len() == self.count,
                buf@ == old(buf)@,
                room == old(buf)@.len(),
                room <= usize::MAX,
                slen == room,
                scratch@.len() == room,
                pos <= room,
                list_wire(self.elem, all) == scratch@.take(pos as int) + list_wire(
                    self.elem,
                    all.skip(i as int),
                ),
                list_enc(self.elem, all, room) == match list_enc(
                    self.elem,
                    all.skip(i as int),
                    (room - pos) as nat,
                ) {
                    Ok(k) => Ok::<nat, Error>(pos as nat + k),
                    Err(e) => Err(e),
                },
            decreases items@.len() - i,
        {
            let ghost item = all.skip(i as int)[0];
            proof {
                assert(all.skip(i as int).drop_first() =~= all.skip(i + 1));
                assert(item == items@[i as int]@);
            }
            let ghost before = scratch@;
            let (head, rest) = scratch.as_mut_slice().split_at_mut(pos);
            let ghost h0 = head@;
            let res = self.elem.enc(&items[i], rest);
            proof {
                assert(scratch@ == head@ + rest@);
                assert(head@ == h0);
                assert(h0 =~= before.take(pos as int));
            }
            let m = match res {
                Ok(m) => m,
                Err(e) => {
                    return Err(e);
                },
            };
            proof {
                self.elem.lemma_enc_ok(item, (room - pos) as nat);
                let w = self.elem.spec_wire(item);
                assert(scratch@.take(pos + m) =~= before.take(pos as int) + w);
                assert(list_wire(self.elem, all.skip(i as int)) == w + list_wire(
                    self.elem,
                    all.skip(i + 1),
                ));
                match list_enc(self.elem, all.skip(i + 1), (room - pos - m) as nat) {
                    Ok(k) => {
                        assert(pos + (m + k) == (pos + m) + k);
                    },
                    Err(_) => {},
                }
            }
            pos = pos + m;
            i = i + 1;
        }
        proof {
            assert(all.skip(i as int).len() == 0);
            assert(scratch@.take(pos as int) + seq![] =~= scratch@.take(pos as int));
        }
        let body = vstd::slice::slice_subrange(scratch.as_slice(), 0, pos);
        proof {
            assert(body@ =~= list_wire(self.elem, all));
        }
        put_bytes(buf, body)
    }

    fn dec(&self, buf: &[u8]) -> (r: Result<(Value, usize), Error>) {
        let mut out: Vec<Value> = Vec::new();
        let mut pos: usize = 0;
        let mut i: usize = 0;
        let blen = buf.len();
        proof {
            assert(buf@.skip(0) =~= buf@);
            assert(model(out@) =~= seq![]);
            match list_dec(self.elem, buf@, self.count as nat) {
                Ok((s, n)) => {
                    assert(model(out@) + s =~= s);
                },
                Err(_) => {},
            }
        }
        while i < self.count
            invariant
                i <= self.count,
                pos <= buf@.len(),
                blen == buf@.len(),
                out@.len() == i,
                list_dec(self.elem, buf@, self.count as nat) == match list_dec(
                    self.elem,
                    buf@.skip(pos as int),
                    (self.count - i) as nat,
                ) {
                    Ok((s, n)) => Ok::<(Seq<ValueModel>, nat), Error>(
                        (model(out@) + s, (pos + n) as nat),
                    ),
                    Err(e) => Err(e),
                },
            decreases self.count - i,
        {
            let rest = tail(buf, pos);
            let (v, n) = match self.elem.dec(rest) {
                Ok(p) => p,
                Err(e) => {
                    return Err(e);
                },
            };
            proof {
                assert(rest@.skip(n as int) =~= buf@.skip(pos + n));
                assert(model(out@.push(v)) =~= model(out@).push(v@));
                match list_dec(self.elem, buf@.skip(pos + n), (self.count - i - 1) as nat) {
                    Ok((s, m)) => {
                        assert(model(out@).push(v@) + s =~= model(out@) + (seq![v@] + s));
                    },
                    Err(_) => {},
                }
            }
            out.push(v);
            pos = pos + n;
            i = i + 1;
        }
        proof {
            assert(model(out@) + seq![] =~= model(out@));
            lemma_list_model(out);
        }
        Ok((Value::List(out), pos))
    }

    proof fn lemma_enc_ok(&self, v: ValueModel, room: nat) {
        if let ValueModel::List(items) = v {
            lemma_list_len_ok(self.elem, items, 0);
            lemma_list_enc_ok(self.elem, items, room);
        }
    }

    proof fn lemma_accepted(&self, v: ValueModel, room: nat) {
        if let ValueModel::List(items) = v {
            lemma_list_accepted(self.elem, items, 0, room);
        }
    }

    proof fn lemma_codec_round_trip(&self, v: ValueModel, rest: Seq<u8>) {
        if let ValueModel::List(items) = v {
            lemma_list_round_trip(self.elem, items, rest);
        }
    }

    proof fn lemma_codec_prefix(&self, buf: Seq<u8>, extra: Seq<u8>) {
        lemma_list_prefix(self.elem, buf, extra, self.count as nat);
    }
}

} // verus!
