//! The method-argument dispatcher: walks the outer format descriptor left
//! to right, one decoded value per tag character, and the bit-run tracker
//! for packed booleans.
//!
//! The outer vocabulary assigns its own widths, distinct from the inner
//! field-table vocabulary: here `b` is a packed boolean, `B` an unsigned
//! 16-bit field, `l`/`L` unsigned 32/64-bit fields. Consecutive `b` tags
//! share one bit-packed byte, least-significant bit first; every other tag
//! resets the run, so a later boolean run starts on a fresh byte. An
//! unknown tag character is a malformed-tag error naming the character.

use vstd::prelude::*;
use vstd::string::StrSliceExecFns;

use crate::cursor::{read_n_spec, Cursor};
use crate::item::{array_spec, table_spec, read_array, read_frame};
use crate::scalars::{bytes_spec, long_string_spec, short_string_spec, timestamp_spec};
use crate::value::{values_model, value_models, DecodeError, SpecValue, Value};
use crate::wire::lemma_be_of_singleton;

verus! {

/// Bit-run state: the still-buffered bits of the current packed byte and
/// how many of them remain. `remaining == 0` means the next boolean starts
/// a fresh byte.
pub struct BitRun {
    pub bits: u8,
    pub remaining: u8,
}

/// What one packed-boolean read yields: the extracted bit (least
/// significant first), the position after it, and the new bit-run state.
/// A fresh byte is consumed only when no buffered bits remain.
pub open spec fn bit_step(buf: Seq<u8>, pos: nat, bits: u8, remaining: u8) -> Result<
    (bool, nat, u8, u8),
    DecodeError,
> {
    if remaining == 0 {
        if pos + 1 <= buf.len() {
            let b = buf[pos as int];
            Ok(((b & 1) == 1, pos + 1, b >> 1, 7))
        } else {
            Err(DecodeError::Truncated)
        }
    } else {
        Ok((((bits & 1) == 1, pos, bits >> 1, (remaining - 1) as u8)))
    }
}

impl BitRun {
    /// A cleared tracker: the next boolean read consumes a fresh byte.
    pub fn new() -> (r: BitRun)
        ensures
            r.bits == 0 && r.remaining == 0,
    {
        BitRun { bits: 0, remaining: 0 }
    }

    /// Reads one packed boolean, consuming a fresh byte from the cursor
    /// only when no buffered bits remain.
    pub fn read_bitmap(&mut self, cur: &mut Cursor) -> (r: Result<bool, DecodeError>)
        ensures
            final(cur).buf@ == old(cur).buf@,
            match (
                r,
                bit_step(old(cur).buf@, old(cur).pos as nat, old(self).bits, old(self).remaining),
            ) {
                (Ok(v), Ok((sv, end, nbits, nrem))) => v == sv && final(cur).pos == end
                    && final(self).bits == nbits && final(self).remaining == nrem,
                (Err(e), Err(se)) => e == se,
                _ => false,
            },
    {
        if self.remaining == 0 {
            match cur.read_u8() {
                Err(e) => {
                    return Err(e);
                },
                Ok(b) => {
                    proof {
                        lemma_be_of_singleton(old(cur).buf@, old(cur).pos as nat);
                    }
                    self.bits = b;
                    self.remaining = 8;
                },
            }
        }
        let v = (self.bits & 1) == 1;
        self.bits = self.bits >> 1;
        self.remaining = self.remaining - 1;
        Ok(v)
    }

    /// Clears the tracker, so the next boolean run starts a fresh byte.
    pub fn reset_bitmap(&mut self)
        ensures
            final(self).bits == 0 && final(self).remaining == 0,
    {
        self.bits = 0;
        self.remaining = 0;
    }
}

/// Whether `c` is a known tag character of the outer format vocabulary.
pub open spec fn is_outer_tag(c: char) -> bool {
    c == 'b' || c == 'o' || c == 'B' || c == 'l' || c == 'L' || c == 'f' || c == 's' || c == 'S'
        || c == 'x' || c == 'T' || c == 'F' || c == 'A'
}

/// What one outer format tag yields at `pos` under bit-run state
/// `(bits, remaining)`: the decoded value, the position past it, and the
/// bit-run state after it (cleared by every tag but `b`).
pub open spec fn format_step(c: char, buf: Seq<u8>, pos: nat, bits: u8, remaining: u8) -> Result<
    (SpecValue, nat, u8, u8),
    DecodeError,
> {
    if c == 'b' {
        match bit_step(buf, pos, bits, remaining) {
            Err(e) => Err(e),
            Ok((v, p, nb, nr)) => Ok((SpecValue::Bool(v), p, nb, nr)),
        }
    } else if c == 'o' {
        match read_n_spec(buf, pos, 1) {
            Err(e) => Err(e),
            Ok((v, p)) => Ok((SpecValue::UInt8(v as u8), p, 0, 0)),
        }
    } else if c == 'B' {
        match read_n_spec(buf, pos, 2) {
            Err(e) => Err(e),
            Ok((v, p)) => Ok((SpecValue::UInt16(v as u16), p, 0, 0)),
        }
    } else if c == 'l' {
        match read_n_spec(buf, pos, 4) {
            Err(e) => Err(e),
            Ok((v, p)) => Ok((SpecValue::UInt32(v as u32), p, 0, 0)),
        }
    } else if c == 'L' {
        match read_n_spec(buf, pos, 8) {
            Err(e) => Err(e),
            Ok((v, p)) => Ok((SpecValue::UInt64(v as u64), p, 0, 0)),
        }
    } else if c == 'f' {
        match read_n_spec(buf, pos, 4) {
            Err(e) => Err(e),
            Ok((v, p)) => Ok((SpecValue::Float32(v as u32), p, 0, 0)),
        }
    } else if c == 's' {
        match short_string_spec(buf, pos) {
            Err(e) => Err(e),
            Ok((t, p)) => Ok((SpecValue::ShortText(t), p, 0, 0)),
        }
    } else if c == 'S' {
        match long_string_spec(buf, pos) {
            Err(e) => Err(e),
            Ok((t, p)) => Ok((SpecValue::LongText(t), p, 0, 0)),
        }
    } else if c == 'x' {
        match bytes_spec(buf, pos) {
            Err(e) => Err(e),
            Ok((b, p)) => Ok((SpecValue::Bytes(b), p, 0, 0)),
        }
    } else if c == 'T' {
        match timestamp_spec(buf, pos) {
            Err(e) => Err(e),
            Ok((t, p)) => Ok((SpecValue::Timestamp(t), p, 0, 0)),
        }
    } else if c == 'F' {
        match table_spec(buf, pos) {
            Err(e) => Err(e),
            Ok((es, p)) => Ok((SpecValue::Table(es), p, 0, 0)),
        }
    } else if c == 'A' {
        match array_spec(buf, pos) {
            Err(e) => Err(e),
            Ok((vs, p)) => Ok((SpecValue::Array(vs), p, 0, 0)),
        }
    } else {
        Err(DecodeError::MalformedFormatTag(c))
    }
}

/// The dispatcher's walk over the remaining format tags: one value per
/// tag appended to `acc`, threading the position and bit-run state.
pub open spec fn dispatch_spec(
    fmt: Seq<char>,
    buf: Seq<u8>,
    pos: nat,
    bits: u8,
    remaining: u8,
    acc: Seq<SpecValue>,
) -> Result<(Seq<SpecValue>, nat), DecodeError>
    decreases fmt.len(),
{
    if fmt.len() == 0 {
        Ok((acc, pos))
    } else {
        match format_step(fmt[0], buf, pos, bits, remaining) {
            Err(e) => Err(e),
            Ok((v, p, nb, nr)) => dispatch_spec(fmt.drop_first(), buf, p, nb, nr, acc.push(v)),
        }
    }
}

/// What a whole decode call yields: the ordered value sequence, one value
/// per format tag, and the offset just past the consumed bytes; or the
/// first error met walking the descriptor left to right.
pub open spec fn decode_spec(fmt: Seq<char>, buf: Seq<u8>, offset: nat) -> Result<
    (Seq<SpecValue>, nat),
    DecodeError,
> {
    dispatch_spec(fmt, buf, offset, 0, 0, Seq::empty())
}

/// Decodes method arguments: walks `format` left to right over `buf`
/// starting at `offset`, and returns the decoded values in order together
/// with the offset just past the consumed bytes (the caller's next start
/// offset), or the first truncation or malformed-tag error.
#[verifier::loop_isolation(false)]
pub fn loads(format: &str, buf: &[u8], offset: usize) -> (r: Result<
    (Vec<Value>, usize),
    DecodeError,
>)
    ensures
        match (r, decode_spec(format@, buf@, offset as nat)) {
            (Ok((vs, end)), Ok((svs, send))) => values_model(vs@, svs) && end == send,
            (Err(e), Err(se)) => e == se,
            _ => false,
        },
{
    let ghost fmt = format@;
    let ghost goal = decode_spec(fmt, buf@, offset as nat);
    let n = format.unicode_len();
    let mut cur = Cursor::new(buf, offset);
    let mut run = BitRun::new();
    let mut values: Vec<Value> = Vec::new();
    let ghost mut model: Seq<SpecValue> = Seq::empty();
    let mut i: usize = 0;
    proof {
        assert(fmt.skip(0) =~= fmt);
    }
    while i < n
        invariant
            i <= n,
            cur.buf@ == buf@,
            values_model(values@, model),
            dispatch_spec(fmt.skip(i as int), buf@, cur.pos as nat, run.bits, run.remaining, model)
                == goal,
        decreases n - i,
    {
        let c = format.get_char(i);
        proof {
            assert(fmt.skip(i as int)[0] == c);
            assert(fmt.skip(i as int).drop_first() =~= fmt.skip(i as int + 1));
        }
        let ghost pos_iter = cur.pos as nat;
        let ghost bits_iter = run.bits;
        let ghost rem_iter = run.remaining;
        let v: Value = if c == 'b' {
            match run.read_bitmap(&mut cur) {
                Err(e) => {
                    return Err(e);
                },
                Ok(b) => Value::Bool(b),
            }
        } else if c == 'o' {
            run.reset_bitmap();
            match cur.read_u8() {
                Err(e) => {
                    return Err(e);
                },
                Ok(v) => Value::UInt8(v),
            }
        } else if c == 'B' {
            run.reset_bitmap();
            match cur.read_u16() {
                Err(e) => {
                    return Err(e);
                },
                Ok(v) => Value::UInt16(v),
            }
        } else if c == 'l' {
            run.reset_bitmap();
            match cur.read_u32() {
                Err(e) => {
                    return Err(e);
                },
                Ok(v) => Value::UInt32(v),
            }
        } else if c == 'L' {
            run.reset_bitmap();
            match cur.read_u64() {
                Err(e) => {
                    return Err(e);
                },
                Ok(v) => Value::UInt64(v),
            }
        } else if c == 'f' {
            run.reset_bitmap();
            match cur.read_u32() {
                Err(e) => {
                    return Err(e);
                },
                Ok(v) => Value::Float32(v),
            }
        } else if c == 's' {
            run.reset_bitmap();
            match cur.read_short_string() {
                Err(e) => {
                    return Err(e);
                },
                Ok(t) => Value::ShortText(t),
            }
        } else if c == 'S' {
            run.reset_bitmap();
            match cur.read_long_string() {
                Err(e) => {
                    return Err(e);
                },
                Ok(t) => Value::LongText(t),
            }
        } else if c == 'x' {
            run.reset_bitmap();
            match cur.read_bytes_array() {
                Err(e) => {
                    return Err(e);
                },
                Ok(b) => Value::Bytes(b),
            }
        } else if c == 'T' {
            run.reset_bitmap();
            match cur.read_timestamp() {
                Err(e) => {
                    return Err(e);
                },
                Ok(t) => Value::Timestamp(t),
            }
        } else if c == 'F' {
            run.reset_bitmap();
            match read_frame(&mut cur) {
                Err(e) => {
                    return Err(e);
                },
                Ok(es) => Value::Table(es),
            }
        } else if c == 'A' {
            run.reset_bitmap();
            match read_array(&mut cur) {
                Err(e) => {
                    return Err(e);
                },
                Ok(vs) => Value::Array(vs),
            }
        } else {
            return Err(DecodeError::MalformedFormatTag(c));
        };
        let ghost sv = format_step(c, buf@, pos_iter, bits_iter, rem_iter)->Ok_0.0;
        proof {
            assert(value_models(v, sv));
        }
        values.push(v);
        proof {
            model = model.push(sv);
            assert(values_model(values@, model));
        }
        i += 1;
    }
    let end = cur.position();
    Ok((values, end))
}

} // verus!
