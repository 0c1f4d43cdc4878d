//! The field-table item decoder: one tag byte from the inner vocabulary,
//! then the tagged payload, recursing into nested tables and arrays.
//!
//! The inner vocabulary is distinct from the outer format-descriptor
//! vocabulary even where the letters coincide (inner `b` is an unsigned
//! byte, inner `B` a signed one; the outer descriptor assigns other widths
//! to both). An unknown tag byte is a malformed-tag error naming the byte,
//! never skipped or defaulted.

use vstd::prelude::*;

use crate::cursor::{read_n_spec, spec_remaining, Cursor};
use crate::scalars::{
    bytes_spec, decimal_spec, long_string_spec, short_string_spec, timestamp_spec,
};
use crate::value::{
    entries_model, table_upsert, upsert, value_models, values_model, DecodeError, SpecEntry,
    SpecValue, TableEntry, Value,
};
use crate::wire::{as_i16, as_i32, as_i64, as_i8, lemma_be_of_singleton};

verus! {

/// The inner (field-table) tag vocabulary, one constant per tag byte.
pub const TAG_LONG_TEXT: u8 = 83;

pub const TAG_SHORT_TEXT: u8 = 115;

pub const TAG_BYTES: u8 = 120;

pub const TAG_UINT8: u8 = 98;

pub const TAG_INT8: u8 = 66;

pub const TAG_INT16: u8 = 85;

pub const TAG_UINT16: u8 = 117;

pub const TAG_INT32: u8 = 73;

pub const TAG_UINT32: u8 = 105;

pub const TAG_INT64: u8 = 76;

pub const TAG_UINT64: u8 = 108;

pub const TAG_FLOAT32: u8 = 102;

pub const TAG_FLOAT64: u8 = 100;

pub const TAG_DECIMAL: u8 = 68;

pub const TAG_TABLE: u8 = 70;

pub const TAG_ARRAY: u8 = 65;

pub const TAG_BOOL: u8 = 116;

pub const TAG_TIMESTAMP: u8 = 84;

pub const TAG_VOID: u8 = 86;


/// Whether `tag` is a known byte of the inner field-table vocabulary.
pub open spec fn is_table_tag(tag: u8) -> bool {
    tag == TAG_LONG_TEXT || tag == TAG_SHORT_TEXT || tag == TAG_BYTES || tag == TAG_UINT8
        || tag == TAG_INT8 || tag == TAG_INT16 || tag == TAG_UINT16 || tag == TAG_INT32
        || tag == TAG_UINT32 || tag == TAG_INT64 || tag == TAG_UINT64 || tag == TAG_FLOAT32
        || tag == TAG_FLOAT64 || tag == TAG_DECIMAL || tag == TAG_TABLE || tag == TAG_ARRAY
        || tag == TAG_BOOL || tag == TAG_TIMESTAMP || tag == TAG_VOID
}

/// What decoding one field-table item at `pos` yields: the value and the
/// position just past it, or the error. The leading byte selects from the
/// inner tag vocabulary; an unrecognized byte is reported in the error.
pub open spec fn item_spec(buf: Seq<u8>, pos: nat) -> Result<(SpecValue, nat), DecodeError>
    decreases buf.len() - pos, 0int,
{
    if pos + 1 > buf.len() {
        Err(DecodeError::Truncated)
    } else {
        let tag = buf[pos as int];
        let p = (pos + 1) as nat;
        if tag == TAG_LONG_TEXT {
            match long_string_spec(buf, p) {
                Err(e) => Err(e),
                Ok((t, end)) => Ok((SpecValue::LongText(t), end)),
            }
        } else if tag == TAG_SHORT_TEXT {
            match short_string_spec(buf, p) {
                Err(e) => Err(e),
                Ok((t, end)) => Ok((SpecValue::ShortText(t), end)),
            }
        } else if tag == TAG_BYTES {
            match bytes_spec(buf, p) {
                Err(e) => Err(e),
                Ok((b, end)) => Ok((SpecValue::Bytes(b), end)),
            }
        } else if tag == TAG_UINT8 {
            match read_n_spec(buf, p, 1) {
                Err(e) => Err(e),
                Ok((v, end)) => Ok((SpecValue::UInt8(v as u8), end)),
            }
        } else if tag == TAG_INT8 {
            match read_n_spec(buf, p, 1) {
                Err(e) => Err(e),
                Ok((v, end)) => Ok((SpecValue::Int8(as_i8(v) as i8), end)),
            }
        } else if tag == TAG_INT16 {
            match read_n_spec(buf, p, 2) {
                Err(e) => Err(e),
                Ok((v, end)) => Ok((SpecValue::Int16(as_i16(v) as i16), end)),
            }
        } else if tag == TAG_UINT16 {
            match read_n_spec(buf, p, 2) {
                Err(e) => Err(e),
                Ok((v, end)) => Ok((SpecValue::UInt16(v as u16), end)),
            }
        } else if tag == TAG_INT32 {
            match read_n_spec(buf, p, 4) {
                Err(e) => Err(e),
                Ok((v, end)) => Ok((SpecValue::Int32(as_i32(v) as i32), end)),
            }
        } else if tag == TAG_UINT32 {
            match read_n_spec(buf, p, 4) {
                Err(e) => Err(e),
                Ok((v, end)) => Ok((SpecValue::UInt32(v as u32), end)),
            }
        } else if tag == TAG_INT64 {
            match read_n_spec(buf, p, 8) {
                Err(e) => Err(e),
                Ok((v, end)) => Ok((SpecValue::Int64(as_i64(v) as i64), end)),
            }
        } else if tag == TAG_UINT64 {
            match read_n_spec(buf, p, 8) {
                Err(e) => Err(e),
                Ok((v, end)) => Ok((SpecValue::UInt64(v as u64), end)),
            }
        } else if tag == TAG_FLOAT32 {
            match read_n_spec(buf, p, 4) {
                Err(e) => Err(e),
                Ok((v, end)) => Ok((SpecValue::Float32(v as u32), end)),
            }
        } else if tag == TAG_FLOAT64 {
            match read_n_spec(buf, p, 8) {
                Err(e) => Err(e),
                Ok((v, end)) => Ok((SpecValue::Float64(v as u64), end)),
            }
        } else if tag == TAG_DECIMAL {
            match decimal_spec(buf, p) {
                Err(e) => Err(e),
                Ok(((scale, unscaled), end)) => Ok(
                    (SpecValue::Decimal { scale, unscaled }, end),
                ),
            }
        } else if tag == TAG_TABLE {
            match table_spec(buf, p) {
                Err(e) => Err(e),
                Ok((es, end)) => Ok((SpecValue::Table(es), end)),
            }
        } else if tag == TAG_ARRAY {
            match array_spec(buf, p) {
                Err(e) => Err(e),
                Ok((vs, end)) => Ok((SpecValue::Array(vs), end)),
            }
        } else if tag == TAG_BOOL {
            match read_n_spec(buf, p, 1) {
                Err(e) => Err(e),
                Ok((v, end)) => Ok((SpecValue::Bool(v != 0), end)),
            }
        } else if tag == TAG_TIMESTAMP {
            match timestamp_spec(buf, p) {
                Err(e) => Err(e),
                Ok((t, end)) => Ok((SpecValue::Timestamp(t), end)),
            }
        } else if tag == TAG_VOID {
            Ok((SpecValue::Void, p))
        } else {
            Err(DecodeError::MalformedTableTag(tag))
        }
    }
}

/// What decoding a nested field table at `pos` yields: a four-byte
/// big-endian payload length `n`, then key/value pairs until the position
/// reaches `pos + 4 + n`.
pub open spec fn table_spec(buf: Seq<u8>, pos: nat) -> Result<(Seq<SpecEntry>, nat), DecodeError>
    decreases buf.len() - pos, 1int,
{
    match read_n_spec(buf, pos, 4) {
        Err(e) => Err(e),
        Ok((n, p)) => table_items_spec(buf, p, p + n, Seq::empty()),
    }
}

/// The table pair loop: as long as the position is short of `limit`, one
/// short-text key then one item, folded into `acc` with last-write-wins
/// upsert. The two guard branches are unreachable (a key or item read
/// always advances the position and stays within the buffer; see
/// [`crate::laws::lemma_item_spec_bounds`]); they settle termination.
pub open spec fn table_items_spec(
    buf: Seq<u8>,
    pos: nat,
    limit: nat,
    acc: Seq<SpecEntry>,
) -> Result<(Seq<SpecEntry>, nat), DecodeError>
    decreases buf.len() - pos, 1int,
{
    if pos >= limit {
        Ok((acc, pos))
    } else {
        match short_string_spec(buf, pos) {
            Err(e) => Err(e),
            Ok((key, k)) => if !(pos < k <= buf.len()) {
                Err(DecodeError::Truncated)
            } else {
                match item_spec(buf, k) {
                    Err(e) => Err(e),
                    Ok((v, p2)) => if !(k < p2 <= buf.len()) {
                        Err(DecodeError::Truncated)
                    } else {
                        table_items_spec(buf, p2, limit, upsert(acc, key, v))
                    },
                }
            },
        }
    }
}

/// What decoding a nested array at `pos` yields: a four-byte big-endian
/// payload length `n`, then items until the position reaches `pos + 4 + n`.
pub open spec fn array_spec(buf: Seq<u8>, pos: nat) -> Result<(Seq<SpecValue>, nat), DecodeError>
    decreases buf.len() - pos, 1int,
{
    match read_n_spec(buf, pos, 4) {
        Err(e) => Err(e),
        Ok((n, p)) => array_items_spec(buf, p, p + n, Seq::empty()),
    }
}

/// The array item loop; as [`table_items_spec`], but without keys and
/// appending in order.
pub open spec fn array_items_spec(
    buf: Seq<u8>,
    pos: nat,
    limit: nat,
    acc: Seq<SpecValue>,
) -> Result<(Seq<SpecValue>, nat), DecodeError>
    decreases buf.len() - pos, 1int,
{
    if pos >= limit {
        Ok((acc, pos))
    } else {
        match item_spec(buf, pos) {
            Err(e) => Err(e),
            Ok((v, p2)) => if !(pos < p2 <= buf.len()) {
                Err(DecodeError::Truncated)
            } else {
                array_items_spec(buf, p2, limit, acc.push(v))
            },
        }
    }
}

/// Decodes one field-table item at the cursor.
pub fn read_item(cur: &mut Cursor) -> (r: Result<Value, DecodeError>)
    ensures
        final(cur).buf@ == old(cur).buf@,
        match (r, item_spec(old(cur).buf@, old(cur).pos as nat)) {
            (Ok(v), Ok((sv, end))) => value_models(v, sv) && final(cur).pos == end && old(cur).pos
                < end <= old(cur).buf@.len(),
            (Err(e), Err(se)) => e == se,
            _ => false,
        },
    decreases spec_remaining(old(cur).buf@, old(cur).pos as nat), 2int,
{
    let tag = match cur.read_u8() {
        Err(e) => {
            return Err(e);
        },
        Ok(t) => t,
    };
    proof {
        lemma_be_of_singleton(old(cur).buf@, old(cur).pos as nat);
        assert(old(cur).buf@[old(cur).pos as int] == tag);
    }
    if tag == TAG_LONG_TEXT {
        match cur.read_long_string() {
            Err(e) => Err(e),
            Ok(t) => Ok(Value::LongText(t)),
        }
    } else if tag == TAG_SHORT_TEXT {
        match cur.read_short_string() {
            Err(e) => Err(e),
            Ok(t) => Ok(Value::ShortText(t)),
        }
    } else if tag == TAG_BYTES {
        match cur.read_bytes_array() {
            Err(e) => Err(e),
            Ok(b) => Ok(Value::Bytes(b)),
        }
    } else if tag == TAG_UINT8 {
        match cur.read_u8() {
            Err(e) => Err(e),
            Ok(v) => {
                proof {
                    lemma_be_of_singleton(final(cur).buf@, (old(cur).pos + 1) as nat);
                }
                Ok(Value::UInt8(v))
            },
        }
    } else if tag == TAG_INT8 {
        match cur.read_i8() {
            Err(e) => Err(e),
            Ok(v) => Ok(Value::Int8(v)),
        }
    } else if tag == TAG_INT16 {
        match cur.read_i16() {
            Err(e) => Err(e),
            Ok(v) => Ok(Value::Int16(v)),
        }
    } else if tag == TAG_UINT16 {
        match cur.read_u16() {
            Err(e) => Err(e),
            Ok(v) => Ok(Value::UInt16(v)),
        }
    } else if tag == TAG_INT32 {
        match cur.read_i32() {
            Err(e) => Err(e),
            Ok(v) => Ok(Value::Int32(v)),
        }
    } else if tag == TAG_UINT32 {
        match cur.read_u32() {
            Err(e) => Err(e),
            Ok(v) => Ok(Value::UInt32(v)),
        }
    } else if tag == TAG_INT64 {
        match cur.read_i64() {
            Err(e) => Err(e),
            Ok(v) => Ok(Value::Int64(v)),
        }
    } else if tag == TAG_UINT64 {
        match cur.read_u64() {
            Err(e) => Err(e),
            Ok(v) => Ok(Value::UInt64(v)),
        }
    } else if tag == TAG_FLOAT32 {
        match cur.read_u32() {
            Err(e) => Err(e),
            Ok(v) => Ok(Value::Float32(v)),
        }
    } else if tag == TAG_FLOAT64 {
        match cur.read_u64() {
            Err(e) => Err(e),
            Ok(v) => Ok(Value::Float64(v)),
        }
    } else if tag == TAG_DECIMAL {
        match cur.read_decimal() {
            Err(e) => Err(e),
            Ok((scale, unscaled)) => Ok(Value::Decimal { scale, unscaled }),
        }
    } else if tag == TAG_TABLE {
        match read_frame(cur) {
            Err(e) => Err(e),
            Ok(es) => Ok(Value::Table(es)),
        }
    } else if tag == TAG_ARRAY {
        match read_array(cur) {
            Err(e) => Err(e),
            Ok(vs) => Ok(Value::Array(vs)),
        }
    } else if tag == TAG_BOOL {
        match cur.read_u8() {
            Err(e) => Err(e),
            Ok(v) => {
                proof {
                    lemma_be_of_singleton(final(cur).buf@, (old(cur).pos + 1) as nat);
                }
                Ok(Value::Bool(v != 0))
            },
        }
    } else if tag == TAG_TIMESTAMP {
        match cur.read_timestamp() {
            Err(e) => Err(e),
            Ok(t) => Ok(Value::Timestamp(t)),
        }
    } else if tag == TAG_VOID {
        Ok(Value::Void)
    } else {
        Err(DecodeError::MalformedTableTag(tag))
    }
}

/// Decodes a nested field table at the cursor: length prefix, then
/// key/value pairs until the declared span is consumed.
#[verifier::loop_isolation(false)]
pub fn read_frame(cur: &mut Cursor) -> (r: Result<Vec<TableEntry>, DecodeError>)
    ensures
        final(cur).buf@ == old(cur).buf@,
        match (r, table_spec(old(cur).buf@, old(cur).pos as nat)) {
            (Ok(es), Ok((ss, end))) => entries_model(es@, ss) && final(cur).pos == end && old(
                cur,
            ).pos < end <= old(cur).buf@.len(),
            (Err(e), Err(se)) => e == se,
            _ => false,
        },
    decreases spec_remaining(old(cur).buf@, old(cur).pos as nat), 1int,
{
    let ghost buf = old(cur).buf@;
    let ghost pos0 = old(cur).pos as nat;
    let n = match cur.read_u32() {
        Err(e) => {
            return Err(e);
        },
        Ok(n) => n,
    };
    let start = cur.position();
    let ghost limit: nat = start as nat + n as nat;
    let ghost goal = table_items_spec(buf, start as nat, limit, Seq::empty());
    let mut entries: Vec<TableEntry> = Vec::new();
    let ghost mut model: Seq<SpecEntry> = Seq::empty();
    while (cur.position() - start) < (n as usize)
        invariant
            cur.buf@ == buf,
            start as nat <= cur.pos as nat <= buf.len(),
            pos0 + 4 == start as nat <= buf.len(),
            limit == start as nat + n as nat,
            entries_model(entries@, model),
            table_items_spec(buf, cur.pos as nat, limit, model) == goal,
            goal == table_spec(buf, pos0),
        decreases spec_remaining(buf, cur.pos as nat),
    {
        assert((cur.pos as nat) < limit);
        let ghost pos_iter = cur.pos as nat;
        let key = match cur.read_short_string() {
            Err(e) => {
                return Err(e);
            },
            Ok(k) => k,
        };
        let ghost k = cur.pos as nat;
        proof {
            assert(short_string_spec(buf, pos_iter) matches Ok((sk, se)) && sk == key@ && se == k);
            assert(pos_iter < k <= buf.len());
        }
        let v = match read_item(cur) {
            Err(e) => {
                return Err(e);
            },
            Ok(v) => v,
        };
        let ghost skey = key@;
        let ghost sv = item_spec(buf, k)->Ok_0.0;
        table_upsert(&mut entries, key, v, Ghost(model), Ghost(sv));
        proof {
            model = upsert(model, skey, sv);
        }
    }
    assert(cur.pos as nat >= limit);
    Ok(entries)
}

/// Decodes a nested array at the cursor: length prefix, then items until
/// the declared span is consumed.
#[verifier::loop_isolation(false)]
pub fn read_array(cur: &mut Cursor) -> (r: Result<Vec<Value>, DecodeError>)
    ensures
        final(cur).buf@ == old(cur).buf@,
        match (r, array_spec(old(cur).buf@, old(cur).pos as nat)) {
            (Ok(vs), Ok((ss, end))) => values_model(vs@, ss) && final(cur).pos == end && old(
                cur,
            ).pos < end <= old(cur).buf@.len(),
            (Err(e), Err(se)) => e == se,
            _ => false,
        },
    decreases spec_remaining(old(cur).buf@, old(cur).pos as nat), 1int,
{
    let ghost buf = old(cur).buf@;
    let ghost pos0 = old(cur).pos as nat;
    let n = match cur.read_u32() {
        Err(e) => {
            return Err(e);
        },
        Ok(n) => n,
    };
    let start = cur.position();
    let ghost limit: nat = start as nat + n as nat;
    let ghost goal = array_items_spec(buf, start as nat, limit, Seq::empty());
    let mut items: Vec<Value> = Vec::new();
    let ghost mut model: Seq<SpecValue> = Seq::empty();
    while (cur.position() - start) < (n as usize)
        invariant
            cur.buf@ == buf,
            start as nat <= cur.pos as nat <= buf.len(),
            pos0 + 4 == start as nat <= buf.len(),
            limit == start as nat + n as nat,
            values_model(items@, model),
            array_items_spec(buf, cur.pos as nat, limit, model) == goal,
            goal == array_spec(buf, pos0),
        decreases spec_remaining(buf, cur.pos as nat),
    {
        assert((cur.pos as nat) < limit);
        let ghost pos_iter = cur.pos as nat;
        let v = match read_item(cur) {
            Err(e) => {
                return Err(e);
            },
            Ok(v) => v,
        };
        let ghost sv = item_spec(buf, pos_iter)->Ok_0.0;
        items.push(v);
        proof {
            assert(values_model(items@, model.push(sv)));
            model = model.push(sv);
        }
    }
    assert(cur.pos as nat >= limit);
    Ok(items)
}

} // verus!
