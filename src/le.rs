//! Fixed-width little-endian integer layout: the byte model and the two
//! executable primitives that write and read it.
use vstd::prelude::*;

verus! {

/// `256` raised to the power `n`.
pub open spec fn pow256(n: nat) -> nat
    decreases n,
{
    if n == 0 {
        1
    } else {
        256 * pow256((n - 1) as nat)
    }
}

/// The `n` low-order bytes of `v`, least significant first.
pub open spec fn le_bytes(v: nat, n: nat) -> Seq<u8>
    decreases n,
{
    if n == 0 {
        seq![]
    } else {
        seq![(v % 256) as u8] + le_bytes(v / 256, (n - 1) as nat)
    }
}

/// The unsigned number whose little-endian bytes are `s`.
pub open spec fn le_value(s: Seq<u8>) -> nat
    decreases s.len(),
{
    if s.len() == 0 {
        0
    } else {
        s[0] as nat + 256 * le_value(s.drop_first())
    }
}

pub proof fn lemma_pow256_positive(n: nat)
    ensures
        pow256(n) >= 1,
    decreases n,
{
    if n > 0 {
        lemma_pow256_positive((n - 1) as nat);
    }
}

pub proof fn lemma_pow256_values()
    ensures
        pow256(1) == 0x100,
        pow256(2) == 0x1_0000,
        pow256(4) == 0x1_0000_0000,
        pow256(8) == 0x1_0000_0000_0000_0000,
{
    reveal_with_fuel(pow256, 9);
}

pub proof fn lemma_le_bytes_len(v: nat, n: nat)
    ensures
        le_bytes(v, n).len() == n,
    decreases n,
{
    if n > 0 {
        lemma_le_bytes_len(v / 256, (n - 1) as nat);
    }
}

/// A value below `256^n` is read back from its `n` bytes.
pub proof fn lemma_le_round_trip(v: nat, n: nat)
    requires
        v < pow256(n),
    ensures
        le_value(le_bytes(v, n)) == v,
    decreases n,
{
    if n == 0 {
    } else {
        let p = pow256((n - 1) as nat);
        assert(v / 256 < p) by (nonlinear_arith)
            requires
                v < 256 * p,
        ;
        lemma_le_round_trip(v / 256, (n - 1) as nat);
        let s = le_bytes(v, n);
        assert(s.drop_first() =~= le_bytes(v / 256, (n - 1) as nat));
        assert((v % 256) as u8 as nat == v % 256);
        assert(v == v % 256 + 256 * (v / 256)) by (nonlinear_arith);
    }
}

/// The number read from `s` is below `256^len`.
pub proof fn lemma_le_value_bound(s: Seq<u8>)
    ensures
        le_value(s) < pow256(s.len()),
    decreases s.len(),
{
    if s.len() > 0 {
        lemma_le_value_bound(s.drop_first());
        let r = le_value(s.drop_first());
        let p = pow256(s.drop_first().len());
        let b = s[0] as nat;
        assert(b + 256 * r < 256 * p) by (nonlinear_arith)
            requires
                b < 256,
                r < p,
        ;
    }
}

/// Writes the `width` low-order bytes of `v` at the start of `buf`, least
/// significant first, and leaves the rest of `buf` as it was.
pub fn write_le(buf: &mut [u8], v: u64, width: usize)
    requires
        width <= old(buf)@.len(),
    ensures
        final(buf)@ == le_bytes(v as nat, width as nat) + old(buf)@.skip(width as int),
{
    let ghost whole = le_bytes(v as nat, width as nat);
    proof {
        lemma_le_bytes_len(v as nat, width as nat);
    }
    let mut i: usize = 0;
    let mut u: u64 = v;
    while i < width
        invariant
            i <= width,
            width <= old(buf)@.len(),
            whole == le_bytes(v as nat, width as nat),
            whole.len() == width,
            buf@.len() == old(buf)@.len(),
            forall|j: int| 0 <= j < i ==> buf@[j] == whole[j],
            forall|j: int| width <= j < buf@.len() ==> buf@[j] == old(buf)@[j],
            le_bytes(u as nat, (width - i) as nat) == whole.skip(i as int),
        decreases width - i,
    {
        let b: u8 = (u % 256) as u8;
        proof {
            let rest = le_bytes(u as nat, (width - i) as nat);
            assert(rest[0] == b);
            assert(rest.drop_first() == le_bytes((u / 256) as nat, (width - i - 1) as nat));
            assert(whole.skip(i as int + 1) =~= rest.drop_first());
        }
        buf[i] = b;
        u = u / 256;
        i = i + 1;
    }
    assert(buf@ =~= whole + old(buf)@.skip(width as int));
}

/// Reads the unsigned number stored little-endian in the first `width` bytes of
/// `buf`.
pub fn read_le(buf: &[u8], width: usize) -> (r: u64)
    requires
        width <= buf@.len(),
        width <= 8,
    ensures
        r as nat == le_value(buf@.take(width as int)),
{
    let mut acc: u64 = 0;
    let mut i: usize = width;
    while i > 0
        invariant
            i <= width,
            width <= buf@.len(),
            width <= 8,
            acc as nat == le_value(buf@.subrange(i as int, width as int)),
        decreases i,
    {
        proof {
            let tail = buf@.subrange(i as int, width as int);
            lemma_le_value_bound(tail);
            lemma_pow256_values();
            lemma_pow256_mono(tail.len(), 7);
            let here = buf@.subrange(i - 1, width as int);
            assert(here.drop_first() =~= tail);
        }
        i = i - 1;
        acc = acc * 256 + buf[i] as u64;
    }
    assert(buf@.subrange(0, width as int) =~= buf@.take(width as int));
    acc
}

pub proof fn lemma_pow256_mono(a: nat, b: nat)
    requires
        a <= b,
    ensures
        pow256(a) <= pow256(b),
    decreases b,
{
    if a < b {
        lemma_pow256_mono(a, (b - 1) as nat);
        lemma_pow256_positive((b - 1) as nat);
    }
}

} // verus!
