//! The read cursor: a position over an immutable byte buffer, with
//! fixed-width big-endian reads, exact-length reads, and a read of the
//! remainder. Fixed-width and exact reads fail with a truncation error when
//! they would run past the buffer end; a failed read leaves the position
//! unchanged.

use vstd::prelude::*;
use vstd::slice::{slice_subrange, slice_to_vec};

use crate::value::DecodeError;
use crate::wire::{as_i16, as_i32, as_i64, as_i8, be_of, lemma_be_of_bound, pow256};

verus! {

/// What a fixed-width big-endian read of `n` bytes at `pos` yields: the
/// numeric value and the position past it, or a truncation error when
/// fewer than `n` bytes remain.
pub open spec fn read_n_spec(buf: Seq<u8>, pos: nat, n: nat) -> Result<(nat, nat), DecodeError> {
    if pos + n <= buf.len() {
        Ok((be_of(buf.subrange(pos as int, (pos + n) as int)), (pos + n) as nat))
    } else {
        Err(DecodeError::Truncated)
    }
}

/// What an exact read of `n` raw bytes at `pos` yields.
pub open spec fn read_exact_spec(buf: Seq<u8>, pos: nat, n: nat) -> Result<
    (Seq<u8>, nat),
    DecodeError,
> {
    if pos + n <= buf.len() {
        Ok((buf.subrange(pos as int, (pos + n) as int), (pos + n) as nat))
    } else {
        Err(DecodeError::Truncated)
    }
}

/// The bytes left between `pos` and the buffer end.
pub open spec fn spec_remaining(buf: Seq<u8>, pos: nat) -> nat {
    if pos <= buf.len() {
        (buf.len() - pos) as nat
    } else {
        0
    }
}

/// Positional read head over an immutable byte buffer. The position starts
/// at the caller's offset (which may lie at or past the buffer end, where
/// every fixed-width read fails) and only ever advances.
pub struct Cursor<'a> {
    pub buf: &'a [u8],
    pub pos: usize,
}

/// Relates an `Ok`/`Err` pair of exec result and spec outcome for a
/// fixed-width numeric read returning the raw unsigned value.
pub open spec fn matches_read_n(
    r: Result<u64, DecodeError>,
    s: Result<(nat, nat), DecodeError>,
    end: nat,
) -> bool {
    match (r, s) {
        (Ok(v), Ok((sv, send))) => v == sv && end == send,
        (Err(e), Err(se)) => e == se,
        _ => false,
    }
}

impl<'a> Cursor<'a> {
    /// A cursor over `buf` starting at `offset`.
    pub fn new(buf: &'a [u8], offset: usize) -> (r: Cursor<'a>)
        ensures
            r.buf@ == buf@,
            r.pos == offset,
    {
        Cursor { buf, pos: offset }
    }

    /// The current read position.
    pub fn position(&self) -> (r: usize)
        ensures
            r == self.pos,
    {
        self.pos
    }

    /// How many bytes remain from the current position to the buffer end.
    pub fn remaining_bytes(&self) -> (r: usize)
        ensures
            r == spec_remaining(self.buf@, self.pos as nat),
    {
        if self.pos <= self.buf.len() {
            self.buf.len() - self.pos
        } else {
            0
        }
    }

    /// Core fixed-width read: `n` bytes big-endian into an unsigned word.
    fn read_be(&mut self, n: usize) -> (r: Result<u64, DecodeError>)
        requires
            n <= 8,
        ensures
            final(self).buf@ == old(self).buf@,
            matches_read_n(
                r,
                read_n_spec(old(self).buf@, old(self).pos as nat, n as nat),
                final(self).pos as nat,
            ),
            r is Err ==> final(self).pos == old(self).pos,
    {
        proof {
            reveal_with_fuel(pow256, 9);
        }
        if self.pos <= self.buf.len() && n <= self.buf.len() - self.pos {
            let start = self.pos;
            let mut acc: u64 = 0;
            let mut i: usize = 0;
            while i < n
                invariant
                    start + n <= self.buf.len(),
                    i <= n <= 8,
                    self.pos == start,
                    acc == be_of(self.buf@.subrange(start as int, start + i)),
                    acc < pow256(i as nat),
                    pow256(8) == 0x1_0000_0000_0000_0000,
                decreases n - i,
            {
                let b = self.buf[start + i];
                proof {
                    let taken = self.buf@.subrange(start as int, start + i + 1);
                    assert(taken.drop_last() =~= self.buf@.subrange(start as int, start + i));
                    assert(taken.last() == b);
                    assert(acc * 256 + b < 256 * pow256(i as nat)) by (nonlinear_arith)
                        requires
                            acc < pow256(i as nat),
                            b < 256,
                    ;
                    assert(256 * pow256(i as nat) <= pow256(8)) by {
                        lemma_pow256_mono((i + 1) as nat, 8);
                    }
                }
                acc = acc * 256 + (b as u64);
                i += 1;
            }
            self.pos = start + n;
            Ok(acc)
        } else {
            Err(DecodeError::Truncated)
        }
    }

    /// One unsigned byte.
    pub fn read_u8(&mut self) -> (r: Result<u8, DecodeError>)
        ensures
            final(self).buf@ == old(self).buf@,
            match (r, read_n_spec(old(self).buf@, old(self).pos as nat, 1)) {
                (Ok(v), Ok((sv, send))) => v == sv && final(self).pos == send,
                (Err(e), Err(se)) => e == se && final(self).pos == old(self).pos,
                _ => false,
            },
    {
        proof {
            reveal_with_fuel(pow256, 9);
        }
        match self.read_be(1) {
            Ok(v) => {
                proof {
                    lemma_be_of_bound(
                        old(self).buf@.subrange(old(self).pos as int, old(self).pos + 1),
                    );
                }
                Ok(v as u8)
            },
            Err(e) => Err(e),
        }
    }

    /// Two bytes big-endian, unsigned.
    pub fn read_u16(&mut self) -> (r: Result<u16, DecodeError>)
        ensures
            final(self).buf@ == old(self).buf@,
            match (r, read_n_spec(old(self).buf@, old(self).pos as nat, 2)) {
                (Ok(v), Ok((sv, send))) => v == sv && final(self).pos == send,
                (Err(e), Err(se)) => e == se && final(self).pos == old(self).pos,
                _ => false,
            },
    {
        proof {
            reveal_with_fuel(pow256, 9);
        }
        match self.read_be(2) {
            Ok(v) => {
                proof {
                    lemma_be_of_bound(
                        old(self).buf@.subrange(old(self).pos as int, old(self).pos + 2),
                    );
                }
                Ok(v as u16)
            },
            Err(e) => Err(e),
        }
    }

    /// Four bytes big-endian, unsigned.
    pub fn read_u32(&mut self) -> (r: Result<u32, DecodeError>)
        ensures
            final(self).buf@ == old(self).buf@,
            match (r, read_n_spec(old(self).buf@, old(self).pos as nat, 4)) {
                (Ok(v), Ok((sv, send))) => v == sv && final(self).pos == send,
                (Err(e), Err(se)) => e == se && final(self).pos == old(self).pos,
                _ => false,
            },
    {
        proof {
            reveal_with_fuel(pow256, 9);
        }
        match self.read_be(4) {
            Ok(v) => {
                proof {
                    lemma_be_of_bound(
                        old(self).buf@.subrange(old(self).pos as int, old(self).pos + 4),
                    );
                }
                Ok(v as u32)
            },
            Err(e) => Err(e),
        }
    }

    /// Eight bytes big-endian, unsigned.
    pub fn read_u64(&mut self) -> (r: Result<u64, DecodeError>)
        ensures
            final(self).buf@ == old(self).buf@,
            match (r, read_n_spec(old(self).buf@, old(self).pos as nat, 8)) {
                (Ok(v), Ok((sv, send))) => v == sv && final(self).pos == send,
                (Err(e), Err(se)) => e == se && final(self).pos == old(self).pos,
                _ => false,
            },
    {
        self.read_be(8)
    }

    /// One byte reinterpreted as signed.
    pub fn read_i8(&mut self) -> (r: Result<i8, DecodeError>)
        ensures
            final(self).buf@ == old(self).buf@,
            match (r, read_n_spec(old(self).buf@, old(self).pos as nat, 1)) {
                (Ok(v), Ok((sv, send))) => v as int == as_i8(sv) && final(self).pos == send,
                (Err(e), Err(se)) => e == se && final(self).pos == old(self).pos,
                _ => false,
            },
    {
        match self.read_u8() {
            Ok(u) => if u < 0x80 {
                Ok(u as i8)
            } else {
                Ok(((u as i16) - 0x100) as i8)
            },
            Err(e) => Err(e),
        }
    }

    /// Two bytes big-endian reinterpreted as signed.
    pub fn read_i16(&mut self) -> (r: Result<i16, DecodeError>)
        ensures
            final(self).buf@ == old(self).buf@,
            match (r, read_n_spec(old(self).buf@, old(self).pos as nat, 2)) {
                (Ok(v), Ok((sv, send))) => v as int == as_i16(sv) && final(self).pos == send,
                (Err(e), Err(se)) => e == se && final(self).pos == old(self).pos,
                _ => false,
            },
    {
        match self.read_u16() {
            Ok(u) => if u < 0x8000 {
                Ok(u as i16)
            } else {
                Ok(((u as i32) - 0x1_0000) as i16)
            },
            Err(e) => Err(e),
        }
    }

    /// Four bytes big-endian reinterpreted as signed.
    pub fn read_i32(&mut self) -> (r: Result<i32, DecodeError>)
        ensures
            final(self).buf@ == old(self).buf@,
            match (r, read_n_spec(old(self).buf@, old(self).pos as nat, 4)) {
                (Ok(v), Ok((sv, send))) => v as int == as_i32(sv) && final(self).pos == send,
                (Err(e), Err(se)) => e == se && final(self).pos == old(self).pos,
                _ => false,
            },
    {
        match self.read_u32() {
            Ok(u) => if u < 0x8000_0000 {
                Ok(u as i32)
            } else {
                Ok(((u as i64) - 0x1_0000_0000) as i32)
            },
            Err(e) => Err(e),
        }
    }

    /// Eight bytes big-endian reinterpreted as signed.
    pub fn read_i64(&mut self) -> (r: Result<i64, DecodeError>)
        ensures
            final(self).buf@ == old(self).buf@,
            match (r, read_n_spec(old(self).buf@, old(self).pos as nat, 8)) {
                (Ok(v), Ok((sv, send))) => v as int == as_i64(sv) && final(self).pos == send,
                (Err(e), Err(se)) => e == se && final(self).pos == old(self).pos,
                _ => false,
            },
    {
        match self.read_u64() {
            Ok(u) => if u < 0x8000_0000_0000_0000 {
                Ok(u as i64)
            } else {
                Ok(((u as i128) - 0x1_0000_0000_0000_0000) as i64)
            },
            Err(e) => Err(e),
        }
    }

    /// Exactly `n` raw bytes, or a truncation error when fewer remain.
    pub fn read_exact(&mut self, n: usize) -> (r: Result<Vec<u8>, DecodeError>)
        ensures
            final(self).buf@ == old(self).buf@,
            match (r, read_exact_spec(old(self).buf@, old(self).pos as nat, n as nat)) {
                (Ok(v), Ok((sv, send))) => v@ == sv && final(self).pos == send,
                (Err(e), Err(se)) => e == se && final(self).pos == old(self).pos,
                _ => false,
            },
    {
        if self.pos <= self.buf.len() && n <= self.buf.len() - self.pos {
            let out = slice_to_vec(slice_subrange(self.buf, self.pos, self.pos + n));
            self.pos = self.pos + n;
            Ok(out)
        } else {
            Err(DecodeError::Truncated)
        }
    }

    /// All bytes from the current position to the buffer end; the position
    /// moves to the end. A position already past the end yields nothing.
    pub fn read_to_end(&mut self) -> (r: Vec<u8>)
        ensures
            final(self).buf@ == old(self).buf@,
            old(self).pos <= old(self).buf@.len() ==> r@ == old(self).buf@.subrange(
                old(self).pos as int,
                old(self).buf@.len() as int,
            ) && final(self).pos == old(self).buf@.len(),
            old(self).pos > old(self).buf@.len() ==> r@ == Seq::<u8>::empty() && final(self).pos
                == old(self).pos,
    {
        if self.pos <= self.buf.len() {
            let out = slice_to_vec(slice_subrange(self.buf, self.pos, self.buf.len()));
            self.pos = self.buf.len();
            out
        } else {
            Vec::new()
        }
    }
}

/// `pow256` grows with its exponent.
pub proof fn lemma_pow256_mono(a: nat, b: nat)
    requires
        a <= b,
    ensures
        pow256(a) <= pow256(b),
    decreases b,
{
    if a < b {
        lemma_pow256_mono(a, (b - 1) as nat);
        assert(pow256((b - 1) as nat) <= 256 * pow256((b - 1) as nat)) by (nonlinear_arith)
            requires
                pow256((b - 1) as nat) >= 0,
        ;
    }
}

} // verus!
