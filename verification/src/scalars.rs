//! Scalar readers built on the cursor: length-prefixed short and long text,
//! length-prefixed byte blobs, decimals, and timestamps.
//!
//! String and blob reads are deliberately lenient: a declared length that
//! exceeds the remaining buffer is not an error; only the bytes actually
//! present are returned and the position moves to the buffer end. Fixed
//! width reads (the length prefixes themselves, decimals, timestamps) stay
//! strict.

use vstd::prelude::*;

use crate::cursor::{read_n_spec, Cursor};
use crate::text::{utf8_lossy, utf8_lossy_decode};
use crate::value::DecodeError;
use crate::wire::as_i32;

verus! {

/// Where a lenient read of `l` bytes at `pos` stops: at `pos + l`, or at
/// the buffer end when fewer bytes remain.
pub open spec fn lenient_end(buf: Seq<u8>, pos: nat, l: nat) -> nat {
    if pos + l <= buf.len() {
        pos + l
    } else {
        buf.len()
    }
}

/// What a short-text read at `pos` yields: a one-byte length `l`, then the
/// lossy UTF-8 decoding of the next `l` bytes, truncated to what the buffer
/// still holds.
pub open spec fn short_string_spec(buf: Seq<u8>, pos: nat) -> Result<
    (Seq<char>, nat),
    DecodeError,
> {
    match read_n_spec(buf, pos, 1) {
        Err(e) => Err(e),
        Ok((l, p)) => {
            let end = lenient_end(buf, p, l);
            Ok((utf8_lossy(buf.subrange(p as int, end as int)), end))
        },
    }
}

/// What a long-text read at `pos` yields: a four-byte big-endian length,
/// then as for short text.
pub open spec fn long_string_spec(buf: Seq<u8>, pos: nat) -> Result<(Seq<char>, nat), DecodeError> {
    match read_n_spec(buf, pos, 4) {
        Err(e) => Err(e),
        Ok((l, p)) => {
            let end = lenient_end(buf, p, l);
            Ok((utf8_lossy(buf.subrange(p as int, end as int)), end))
        },
    }
}

/// What a byte-blob read at `pos` yields: a four-byte big-endian length,
/// then the raw bytes themselves, truncated to what the buffer still holds.
pub open spec fn bytes_spec(buf: Seq<u8>, pos: nat) -> Result<(Seq<u8>, nat), DecodeError> {
    match read_n_spec(buf, pos, 4) {
        Err(e) => Err(e),
        Ok((l, p)) => {
            let end = lenient_end(buf, p, l);
            Ok((buf.subrange(p as int, end as int), end))
        },
    }
}

/// What a decimal read at `pos` yields: a one-byte unsigned scale, then a
/// four-byte big-endian signed unscaled value; the decimal is the exact
/// rational `unscaled / 10^scale`, kept as the pair.
pub open spec fn decimal_spec(buf: Seq<u8>, pos: nat) -> Result<((u8, i32), nat), DecodeError> {
    match read_n_spec(buf, pos, 1) {
        Err(e) => Err(e),
        Ok((d, p)) => match read_n_spec(buf, p, 4) {
            Err(e) => Err(e),
            Ok((n, p2)) => Ok((((d as u8), as_i32(n) as i32), p2)),
        },
    }
}

/// What a timestamp read at `pos` yields: an eight-byte big-endian unsigned
/// count of POSIX seconds since the epoch, whole seconds only.
pub open spec fn timestamp_spec(buf: Seq<u8>, pos: nat) -> Result<(u64, nat), DecodeError> {
    match read_n_spec(buf, pos, 8) {
        Err(e) => Err(e),
        Ok((v, p)) => Ok(((v as u64), p)),
    }
}

impl<'a> Cursor<'a> {
    /// The lenient tail of a string or blob read: up to `l` bytes, fewer
    /// when the buffer ends first.
    fn read_lenient(&mut self, l: usize) -> (r: Vec<u8>)
        requires
            old(self).pos <= old(self).buf@.len(),
        ensures
            final(self).buf@ == old(self).buf@,
            r@ == old(self).buf@.subrange(
                old(self).pos as int,
                lenient_end(old(self).buf@, old(self).pos as nat, l as nat) as int,
            ),
            final(self).pos == lenient_end(old(self).buf@, old(self).pos as nat, l as nat),
    {
        let avail = self.remaining_bytes();
        if l <= avail {
            match self.read_exact(l) {
                Ok(b) => b,
                Err(_) => Vec::new(),
            }
        } else {
            self.read_to_end()
        }
    }

    /// A short string: one-byte length prefix, lossy UTF-8 text, lenient on
    /// truncation.
    pub fn read_short_string(&mut self) -> (r: Result<String, DecodeError>)
        ensures
            final(self).buf@ == old(self).buf@,
            match (r, short_string_spec(old(self).buf@, old(self).pos as nat)) {
                (Ok(s), Ok((cs, end))) => s@ == cs && final(self).pos == end,
                (Err(e), Err(se)) => e == se,
                _ => false,
            },
    {
        match self.read_u8() {
            Err(e) => Err(e),
            Ok(l) => {
                let bytes = self.read_lenient(l as usize);
                Ok(utf8_lossy_decode(bytes.as_slice()))
            },
        }
    }

    /// A long string: four-byte big-endian length prefix, lossy UTF-8 text,
    /// lenient on truncation.
    pub fn read_long_string(&mut self) -> (r: Result<String, DecodeError>)
        ensures
            final(self).buf@ == old(self).buf@,
            match (r, long_string_spec(old(self).buf@, old(self).pos as nat)) {
                (Ok(s), Ok((cs, end))) => s@ == cs && final(self).pos == end,
                (Err(e), Err(se)) => e == se,
                _ => false,
            },
    {
        match self.read_u32() {
            Err(e) => Err(e),
            Ok(l) => {
                let bytes = self.read_lenient(l as usize);
                Ok(utf8_lossy_decode(bytes.as_slice()))
            },
        }
    }

    /// A byte blob: four-byte big-endian length prefix, raw bytes, lenient
    /// on truncation.
    pub fn read_bytes_array(&mut self) -> (r: Result<Vec<u8>, DecodeError>)
        ensures
            final(self).buf@ == old(self).buf@,
            match (r, bytes_spec(old(self).buf@, old(self).pos as nat)) {
                (Ok(b), Ok((bs, end))) => b@ == bs && final(self).pos == end,
                (Err(e), Err(se)) => e == se,
                _ => false,
            },
    {
        match self.read_u32() {
            Err(e) => Err(e),
            Ok(l) => Ok(self.read_lenient(l as usize)),
        }
    }

    /// A decimal: unsigned scale byte, then signed big-endian unscaled
    /// value; the exact value is `unscaled / 10^scale`.
    pub fn read_decimal(&mut self) -> (r: Result<(u8, i32), DecodeError>)
        ensures
            final(self).buf@ == old(self).buf@,
            match (r, decimal_spec(old(self).buf@, old(self).pos as nat)) {
                (Ok((scale, unscaled)), Ok(((sscale, sunscaled), end))) => scale == sscale
                    && unscaled == sunscaled && final(self).pos == end,
                (Err(e), Err(se)) => e == se,
                _ => false,
            },
    {
        match self.read_u8() {
            Err(e) => Err(e),
            Ok(d) => match self.read_i32() {
                Err(e) => Err(e),
                Ok(n) => Ok((d, n)),
            },
        }
    }

    /// A timestamp: eight bytes big-endian, POSIX seconds since the epoch.
    pub fn read_timestamp(&mut self) -> (r: Result<u64, DecodeError>)
        ensures
            final(self).buf@ == old(self).buf@,
            match (r, timestamp_spec(old(self).buf@, old(self).pos as nat)) {
                (Ok(t), Ok((st, end))) => t == st && final(self).pos == end,
                (Err(e), Err(se)) => e == se,
                _ => false,
            },
    {
        self.read_u64()
    }
}

} // verus!
