//! Sequences of fixed-width integers: fixed-count arrays and greedy
//! sequences that run to the end of the buffer.
use vstd::prelude::*;

use crate::bytes::{tail, write_result, written};
use crate::error::Error;
use crate::primitives::IntKind;

verus! {

/// The concatenated encodings of the elements of `s`.
pub open spec fn ints_wire(k: IntKind, s: Seq<i128>) -> Seq<u8>
    decreases s.len(),
{
    if s.len() == 0 {
        seq![]
    } else {
        k.wire(s[0] as int) + ints_wire(k, s.drop_first())
    }
}

pub open spec fn all_in_range(k: IntKind, s: Seq<i128>) -> bool {
    forall|j: int| 0 <= j < s.len() ==> k.in_range(#[trigger] s[j] as int)
}

/// Decoding of exactly `count` elements from the start of `buf`; `None` when
/// the buffer runs out first.
pub open spec fn decode_ints(k: IntKind, buf: Seq<u8>, count: nat) -> Option<Seq<i128>>
    decreases count,
{
    if count == 0 {
        Some(seq![])
    } else if buf.len() < k.spec_width() {
        None
    } else {
        match decode_ints(k, buf.skip(k.spec_width() as int), (count - 1) as nat) {
            Some(s) => Some(seq![k.value_of(buf) as i128] + s),
            None => None,
        }
    }
}

/// Greedy decoding: elements one after another until `buf` is exactly
/// exhausted; `None` when the last element runs past the end.
pub open spec fn decode_greedy(k: IntKind, buf: Seq<u8>) -> Option<Seq<i128>>
    decreases buf.len(),
    via decode_greedy_decreases
{
    if buf.len() == 0 {
        Some(seq![])
    } else if buf.len() < k.spec_width() {
        None
    } else {
        match decode_greedy(k, buf.skip(k.spec_width() as int)) {
            Some(s) => Some(seq![k.value_of(buf) as i128] + s),
            None => None,
        }
    }
}

#[via_fn]
proof fn decode_greedy_decreases(k: IntKind, buf: Seq<u8>) {
    k.lemma_modulus();
    if buf.len() != 0 && buf.len() >= k.spec_width() {
        assert(buf.skip(k.spec_width() as int).len() < buf.len());
    }
}

pub proof fn lemma_ints_wire_len(k: IntKind, s: Seq<i128>)
    ensures
        ints_wire(k, s).len() == s.len() * k.spec_width(),
    decreases s.len(),
{
    if s.len() > 0 {
        lemma_ints_wire_len(k, s.drop_first());
        k.lemma_wire_len(s[0] as int);
        let n = s.len();
        let w = k.spec_width();
        assert(w + (n - 1) * w == n * w) by (nonlinear_arith);
    }
}

pub proof fn lemma_ints_wire_push(k: IntKind, s: Seq<i128>, v: i128)
    ensures
        ints_wire(k, s.push(v)) == ints_wire(k, s) + k.wire(v as int),
    decreases s.len(),
{
    if s.len() == 0 {
        assert(s.push(v).drop_first() =~= s);
        assert(ints_wire(k, s.push(v)) =~= ints_wire(k, s) + k.wire(v as int));
    } else {
        lemma_ints_wire_push(k, s.drop_first(), v);
        assert(s.push(v).drop_first() =~= s.drop_first().push(v));
        assert(ints_wire(k, s.push(v)) =~= ints_wire(k, s) + k.wire(v as int));
    }
}

/// A successful fixed-count decode takes `count * width` bytes of the buffer.
pub proof fn lemma_decode_ints_len(k: IntKind, buf: Seq<u8>, count: nat)
    ensures
        decode_ints(k, buf, count) is Some ==> count * k.spec_width() <= buf.len(),
    decreases count,
{
    if count > 0 && buf.len() >= k.spec_width() {
        let w = k.spec_width();
        let c1 = (count - 1) as nat;
        let rest = buf.skip(w as int);
        lemma_decode_ints_len(k, rest, c1);
        assert(rest.len() == buf.len() - w);
        assert(count * w == w + c1 * w) by (nonlinear_arith)
            requires
                c1 == count - 1,
        ;
    } else if count == 0 {
        assert(count * k.spec_width() == 0) by (nonlinear_arith)
            requires
                count == 0,
        ;
    }
}

/// A fixed-count decode reads no byte past its elements.
pub proof fn lemma_decode_ints_prefix(k: IntKind, buf: Seq<u8>, extra: Seq<u8>, count: nat)
    ensures
        decode_ints(k, buf, count) is Some ==> decode_ints(k, buf + extra, count) == decode_ints(
            k,
            buf,
            count,
        ),
    decreases count,
{
    if count > 0 && buf.len() >= k.spec_width() {
        let w = k.spec_width() as int;
        lemma_decode_ints_prefix(k, buf.skip(w), extra, (count - 1) as nat);
        assert((buf + extra).skip(w) =~= buf.skip(w) + extra);
        assert((buf + extra).take(w) =~= buf.take(w));
    }
}

/// A fixed-count array is decoded back from its encoding, whatever follows.
pub proof fn lemma_decode_ints_round_trip(k: IntKind, s: Seq<i128>, rest: Seq<u8>)
    requires
        all_in_range(k, s),
    ensures
        decode_ints(k, ints_wire(k, s) + rest, s.len()) == Some(s),
    decreases s.len(),
{
    if s.len() > 0 {
        let w = k.wire(s[0] as int);
        let more = ints_wire(k, s.drop_first());
        k.lemma_round_trip(s[0] as int, more + rest);
        assert(ints_wire(k, s) + rest =~= w + (more + rest));
        assert((w + (more + rest)).skip(k.spec_width() as int) =~= more + rest);
        assert(all_in_range(k, s.drop_first())) by {
            assert forall|j: int| 0 <= j < s.drop_first().len() implies k.in_range(
                #[trigger] s.drop_first()[j] as int,
            ) by {
                assert(s.drop_first()[j] == s[j + 1]);
            }
        }
        lemma_decode_ints_round_trip(k, s.drop_first(), rest);
        assert(s[0] as int as i128 == s[0]);
        assert(seq![s[0]] + s.drop_first() =~= s);
    }
}

/// A greedy sequence is decoded back from exactly its encoding.
pub proof fn lemma_decode_greedy_round_trip(k: IntKind, s: Seq<i128>)
    requires
        all_in_range(k, s),
    ensures
        decode_greedy(k, ints_wire(k, s)) == Some(s),
    decreases s.len(),
{
    k.lemma_modulus();
    if s.len() > 0 {
        let w = k.wire(s[0] as int);
        let more = ints_wire(k, s.drop_first());
        k.lemma_round_trip(s[0] as int, more);
        assert(ints_wire(k, s).skip(k.spec_width() as int) =~= more);
        assert(all_in_range(k, s.drop_first())) by {
            assert forall|j: int| 0 <= j < s.drop_first().len() implies k.in_range(
                #[trigger] s.drop_first()[j] as int,
            ) by {
                assert(s.drop_first()[j] == s[j + 1]);
            }
        }
        lemma_decode_greedy_round_trip(k, s.drop_first());
        assert(seq![s[0]] + s.drop_first() =~= s);
    }
}

/// Writes `v` at `pos` in `buf`.
pub fn put_int_at(k: IntKind, v: i128, buf: &mut [u8], pos: usize)
    requires
        k.in_range(v as int),
        pos + k.spec_width() <= old(buf)@.len(),
    ensures
        final(buf)@ == old(buf)@.take(pos as int) + k.wire(v as int) + old(buf)@.skip(
            pos + k.spec_width(),
        ),
{
    let (_head, rest) = buf.split_at_mut(pos);
    let _ = k.encode_int(v, rest);
    proof {
        k.lemma_wire_len(v as int);
        assert(final(buf)@ =~= old(buf)@.take(pos as int) + k.wire(v as int) + old(buf)@.skip(
            pos + k.spec_width(),
        ));
    }
}

/// Encodes the elements of `s` one after another at the start of `buf`.
/// Fails with `Length`, writing nothing, when they do not all fit.
pub fn encode_ints(k: IntKind, s: &[i128], buf: &mut [u8]) -> (r: Result<usize, Error>)
    requires
        all_in_range(k, s@),
    ensures
        r == write_result(ints_wire(k, s@), old(buf)@.len()),
        r is Ok ==> final(buf)@ == written(old(buf)@, ints_wire(k, s@)),
        r is Err ==> final(buf)@ == old(buf)@,
{
    let w = k.width();
    let blen = buf.len();
    proof {
        k.lemma_modulus();
        lemma_ints_wire_len(k, s@);
    }
    if s.len() > buf.len() / w {
        proof {
            let n = s@.len();
            let b = old(buf)@.len();
            let w = w as nat;
            assert(n * w > b) by (nonlinear_arith)
                requires
                    n > b / w,
                    w >= 1,
            ;
        }
        return Err(Error::Length);
    }
    proof {
        let n = s@.len();
        let b = old(buf)@.len();
        let w = w as nat;
        assert(n * w <= b) by (nonlinear_arith)
            requires
                n <= b / w,
                w >= 1,
        ;
    }
    let mut i: usize = 0;
    let mut pos: usize = 0;
    while i < s.len()
        invariant
            i <= s@.len(),
            all_in_range(k, s@),
            w == k.spec_width(),
            w >= 1,
            s@.len() * w <= old(buf)@.len(),
            blen == old(buf)@.len(),
            pos == i * w,
            buf@.len() == old(buf)@.len(),
            buf@ == ints_wire(k, s@.take(i as int)) + old(buf)@.skip(pos as int),
        decreases s@.len() - i,
    {
        proof {
            assert((i + 1) * w <= s@.len() * w) by (nonlinear_arith)
                requires
                    i + 1 <= s@.len(),
            ;
            assert((i + 1) * w == i * w + w) by (nonlinear_arith);
            lemma_ints_wire_len(k, s@.take(i as int));
            lemma_ints_wire_push(k, s@.take(i as int), s@[i as int]);
            assert(s@.take(i as int).push(s@[i as int]) =~= s@.take(i + 1));
            assert(k.in_range(s@[i as int] as int));
        }
        put_int_at(k, s[i], buf, pos);
        proof {
            k.lemma_wire_len(s@[i as int] as int);
            assert(buf@ =~= ints_wire(k, s@.take(i + 1)) + old(buf)@.skip(pos + w));
        }
        pos = pos + w;
        i = i + 1;
    }
    assert(s@.take(s@.len() as int) =~= s@);
    Ok(pos)
}

/// Decodes exactly `count` elements from the start of `buf`.
pub fn decode_ints_exec(k: IntKind, buf: &[u8], count: usize) -> (r: Result<(Vec<i128>, usize), Error>)
    ensures
        match decode_ints(k, buf@, count as nat) {
            Some(s) => (r matches Ok((v, n)) && v@ == s && n == count * k.spec_width()),
            None => r == Err::<(Vec<i128>, usize), Error>(Error::Length),
        },
{
    let w = k.width();
    let blen = buf.len();
    let mut out: Vec<i128> = Vec::new();
    let mut pos: usize = 0;
    let mut i: usize = 0;
    proof {
        k.lemma_modulus();
        assert(buf@.skip(0) =~= buf@);
        match decode_ints(k, buf@, count as nat) {
            Some(t) => {
                assert(out@ + t =~= t);
            },
            None => {},
        }
    }
    while i < count
        invariant
            i <= count,
            w == k.spec_width(),
            1 <= w <= 8,
            pos == i * w,
            pos <= buf@.len(),
            blen == buf@.len(),
            out@.len() == i,
            decode_ints(k, buf@, count as nat) == match decode_ints(
                k,
                buf@.skip(pos as int),
                (count - i) as nat,
            ) {
                Some(s) => Some(out@ + s),
                None => None::<Seq<i128>>,
            },
        decreases count - i,
    {
        let rest = tail(buf, pos);
        if rest.len() < w {
            return Err(Error::Length);
        }
        assert(pos + w <= buf@.len());
        let d = k.decode_int(rest);
        let v = match d {
            Ok((v, _)) => v,
            Err(e) => {
                return Err(e);
            },
        };
        proof {
            assert(rest@.skip(w as int) =~= buf@.skip(pos + w));
            assert((i + 1) * w == i * w + w) by (nonlinear_arith);
            let later = decode_ints(k, buf@.skip(pos + w), (count - i - 1) as nat);
            match later {
                Some(t) => {
                    assert(out@.push(v) + t =~= out@ + (seq![v] + t));
                },
                None => {},
            }
        }
        out.push(v);
        pos = pos + w;
        i = i + 1;
    }
    proof {
        assert(out@ + seq![] =~= out@);
    }
    Ok((out, pos))
}

/// Decodes elements one after another until `buf` is exactly exhausted;
/// fails with `Length` when the last element runs past the end.
pub fn decode_greedy_exec(k: IntKind, buf: &[u8]) -> (r: Result<(Vec<i128>, usize), Error>)
    ensures
        match decode_greedy(k, buf@) {
            Some(s) => (r matches Ok((v, n)) && v@ == s && n == buf@.len()),
            None => r == Err::<(Vec<i128>, usize), Error>(Error::Length),
        },
{
    let w = k.width();
    let blen = buf.len();
    let mut out: Vec<i128> = Vec::new();
    let mut pos: usize = 0;
    proof {
        k.lemma_modulus();
        assert(buf@.skip(0) =~= buf@);
        match decode_greedy(k, buf@) {
            Some(t) => {
                assert(out@ + t =~= t);
            },
            None => {},
        }
    }
    while pos < buf.len()
        invariant
            w == k.spec_width(),
            1 <= w <= 8,
            pos <= buf@.len(),
            blen == buf@.len(),
            decode_greedy(k, buf@) == match decode_greedy(k, buf@.skip(pos as int)) {
                Some(s) => Some(out@ + s),
                None => None::<Seq<i128>>,
            },
        decreases buf@.len() - pos,
    {
        let rest = tail(buf, pos);
        if rest.len() < w {
            return Err(Error::Length);
        }
        assert(pos + w <= buf@.len());
        let d = k.decode_int(rest);
        let v = match d {
            Ok((v, _)) => v,
            Err(e) => {
                return Err(e);
            },
        };
        proof {
            assert(rest@.skip(w as int) =~= buf@.skip(pos + w));
            let later = decode_greedy(k, buf@.skip(pos + w));
            match later {
                Some(t) => {
                    assert(out@.push(v) + t =~= out@ + (seq![v] + t));
                },
                None => {},
            }
        }
        out.push(v);
        pos = pos + w;
    }
    proof {
        assert(buf@.skip(pos as int).len() == 0);
        assert(out@ + seq![] =~= out@);
    }
    Ok((out, pos))
}

} // verus!
