//! Big-endian wire arithmetic: the value of a byte string, the byte string
//! of a value, the signed reinterpretation of an unsigned word, and the
//! round-trip laws relating them.

use vstd::prelude::*;

verus! {

/// The value of a byte string read big-endian (most significant byte first).
pub open spec fn be_of(s: Seq<u8>) -> nat
    decreases s.len(),
{
    if s.len() == 0 {
        0
    } else {
        be_of(s.drop_last()) * 256 + s.last() as nat
    }
}

/// The big-endian encoding of `v mod 256^n` in exactly `n` bytes.
pub open spec fn be_bytes(v: nat, n: nat) -> Seq<u8>
    decreases n,
{
    if n == 0 {
        Seq::empty()
    } else {
        be_bytes(v / 256, (n - 1) as nat).push((v % 256) as u8)
    }
}

/// 256 to the power `n`: the number of byte strings of length `n`.
pub open spec fn pow256(n: nat) -> nat
    decreases n,
{
    if n == 0 {
        1
    } else {
        256 * pow256((n - 1) as nat)
    }
}

/// A byte string of length `n` holds a value below `256^n`.
pub proof fn lemma_be_of_bound(s: Seq<u8>)
    ensures
        be_of(s) < pow256(s.len()),
    decreases s.len(),
{
    if s.len() == 0 {
    } else {
        lemma_be_of_bound(s.drop_last());
    }
}

/// Re-encoding the value of a byte string over its own length reproduces
/// the bytes: decode then encode is the identity for every fixed width.
pub proof fn lemma_be_round_trip(s: Seq<u8>)
    ensures
        be_bytes(be_of(s), s.len()) =~= s,
    decreases s.len(),
{
    if s.len() == 0 {
    } else {
        let d = s.drop_last();
        let b = s.last();
        lemma_be_round_trip(d);
        assert(be_of(s) == be_of(d) * 256 + b);
        assert(be_of(s) / 256 == be_of(d) && be_of(s) % 256 == b) by (nonlinear_arith)
            requires
                be_of(s) == be_of(d) * 256 + b,
                0 <= b < 256,
        ;
        assert(be_bytes(be_of(s), s.len()) == be_bytes(be_of(d), d.len()).push(b));
    }
}

/// Encoding a value below `256^n` over `n` bytes and decoding it again
/// gives the value back.
pub proof fn lemma_be_of_encoding(v: nat, n: nat)
    requires
        v < pow256(n),
    ensures
        be_of(be_bytes(v, n)) == v,
    decreases n,
{
    if n == 0 {
    } else {
        assert(v / 256 < pow256((n - 1) as nat)) by (nonlinear_arith)
            requires
                v < 256 * pow256((n - 1) as nat),
        ;
        lemma_be_of_encoding(v / 256, (n - 1) as nat);
        let e = be_bytes(v, n);
        assert(e.drop_last() =~= be_bytes(v / 256, (n - 1) as nat));
        assert(be_of(e) == (v / 256) * 256 + v % 256);
        assert((v / 256) * 256 + v % 256 == v) by (nonlinear_arith);
    }
}

/// A one-byte big-endian read is the byte itself.
pub proof fn lemma_be_of_singleton(buf: Seq<u8>, pos: nat)
    requires
        pos + 1 <= buf.len(),
    ensures
        be_of(buf.subrange(pos as int, pos as int + 1)) == buf[pos as int],
{
    let s = buf.subrange(pos as int, pos as int + 1);
    assert(s.len() == 1 && s.last() == buf[pos as int]);
    assert(s.drop_last() =~= Seq::<u8>::empty());
    assert(be_of(s.drop_last()) == 0);
}

/// The signed 8-bit value whose two's-complement bit pattern is `u`.
pub open spec fn as_i8(u: nat) -> int {
    if u < 0x80 {
        u as int
    } else {
        u - 0x100
    }
}

/// The signed 16-bit value whose two's-complement bit pattern is `u`.
pub open spec fn as_i16(u: nat) -> int {
    if u < 0x8000 {
        u as int
    } else {
        u - 0x1_0000
    }
}

/// The signed 32-bit value whose two's-complement bit pattern is `u`.
pub open spec fn as_i32(u: nat) -> int {
    if u < 0x8000_0000 {
        u as int
    } else {
        u - 0x1_0000_0000
    }
}

/// The signed 64-bit value whose two's-complement bit pattern is `u`.
pub open spec fn as_i64(u: nat) -> int {
    if u < 0x8000_0000_0000_0000 {
        u as int
    } else {
        u - 0x1_0000_0000_0000_0000
    }
}

/// The two's-complement bit pattern of a signed value, given the size of
/// the value space (`256^width`).
pub open spec fn unsigned_in(i: int, space: nat) -> nat {
    if i >= 0 {
        i as nat
    } else {
        (i + space) as nat
    }
}

/// The signed reinterpretations are inverted by `unsigned_in` over the
/// matching space: no information is lost on signed fixed-width fields.
pub proof fn lemma_signed_round_trip(u: nat)
    ensures
        u < 0x100 ==> unsigned_in(as_i8(u), 0x100) == u,
        u < 0x1_0000 ==> unsigned_in(as_i16(u), 0x1_0000) == u,
        u < 0x1_0000_0000 ==> unsigned_in(as_i32(u), 0x1_0000_0000) == u,
        u < 0x1_0000_0000_0000_0000 ==> unsigned_in(as_i64(u), 0x1_0000_0000_0000_0000) == u,
{
}

} // verus!
