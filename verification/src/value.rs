//! The decoded value union, its mathematical model, and the decode error type.
//!
//! A decode call produces a sequence of `Value`s. Contracts speak of the
//! ghost counterpart `SpecValue`, in which text is a `Seq<char>`, byte blobs
//! are `Seq<u8>`, and tables and arrays are sequences; the relation
//! [`value_models`] ties an executable value to its model.

use vstd::prelude::*;

verus! {

/// An error surfaced by the decoder: either a fixed-width or exact read ran
/// past the buffer end, or a tag byte (inner vocabulary) or tag character
/// (outer format descriptor) matched no known case.
#[derive(Debug, Clone, Copy, PartialEq, Eq, Structural)]
pub enum DecodeError {
    /// A fixed-width or exact-length read requested more bytes than remain.
    Truncated,
    /// A field-table type tag byte matched no known case.
    MalformedTableTag(u8),
    /// A format-descriptor tag character matched no known case.
    MalformedFormatTag(char),
}

/// One entry of a decoded field table: a short-text key and its value.
#[derive(Debug, PartialEq)]
pub struct TableEntry {
    pub key: String,
    pub value: Value,
}

/// The closed union of decodable values.
///
/// Float fields hold the raw big-endian bit pattern (`u32` for 32-bit,
/// `u64` for 64-bit); the decoder propagates the bits untouched and leaves
/// any numeric interpretation to the consumer. A decimal is kept exact as
/// its unscaled integer and scale (the value is `unscaled / 10^scale`),
/// never converted through floating point. A timestamp is the raw count of
/// POSIX seconds since the epoch.
#[derive(Debug, PartialEq)]
pub enum Value {
    Bool(bool),
    UInt8(u8),
    Int8(i8),
    Int16(i16),
    UInt16(u16),
    Int32(i32),
    UInt32(u32),
    Int64(i64),
    UInt64(u64),
    Float32(u32),
    Float64(u64),
    Decimal { scale: u8, unscaled: i32 },
    Timestamp(u64),
    ShortText(String),
    LongText(String),
    Bytes(Vec<u8>),
    Table(Vec<TableEntry>),
    Array(Vec<Value>),
    Void,
}

/// Ghost model of one field-table entry.
pub struct SpecEntry {
    pub key: Seq<char>,
    pub value: SpecValue,
}

/// Ghost model of a decoded value; what the decoder's contracts speak of.
pub enum SpecValue {
    Bool(bool),
    UInt8(u8),
    Int8(i8),
    Int16(i16),
    UInt16(u16),
    Int32(i32),
    UInt32(u32),
    Int64(i64),
    UInt64(u64),
    Float32(u32),
    Float64(u64),
    Decimal { scale: u8, unscaled: i32 },
    Timestamp(u64),
    ShortText(Seq<char>),
    LongText(Seq<char>),
    Bytes(Seq<u8>),
    Table(Seq<SpecEntry>),
    Array(Seq<SpecValue>),
    Void,
}

/// An executable value carries exactly the content of its ghost model.
pub open spec fn value_models(v: Value, s: SpecValue) -> bool
    decreases s,
{
    match (v, s) {
        (Value::Bool(a), SpecValue::Bool(b)) => a == b,
        (Value::UInt8(a), SpecValue::UInt8(b)) => a == b,
        (Value::Int8(a), SpecValue::Int8(b)) => a == b,
        (Value::Int16(a), SpecValue::Int16(b)) => a == b,
        (Value::UInt16(a), SpecValue::UInt16(b)) => a == b,
        (Value::Int32(a), SpecValue::Int32(b)) => a == b,
        (Value::UInt32(a), SpecValue::UInt32(b)) => a == b,
        (Value::Int64(a), SpecValue::Int64(b)) => a == b,
        (Value::UInt64(a), SpecValue::UInt64(b)) => a == b,
        (Value::Float32(a), SpecValue::Float32(b)) => a == b,
        (Value::Float64(a), SpecValue::Float64(b)) => a == b,
        (
            Value::Decimal { scale: a, unscaled: b },
            SpecValue::Decimal { scale: c, unscaled: d },
        ) => a == c && b == d,
        (Value::Timestamp(a), SpecValue::Timestamp(b)) => a == b,
        (Value::ShortText(t), SpecValue::ShortText(cs)) => t@ == cs,
        (Value::LongText(t), SpecValue::LongText(cs)) => t@ == cs,
        (Value::Bytes(bv), SpecValue::Bytes(bs)) => bv@ == bs,
        (Value::Table(es), SpecValue::Table(ss)) => es@.len() == ss.len()
            && (forall|i: int|
                #![trigger ss[i]]
                0 <= i < ss.len() ==> es@[i].key@ == ss[i].key && value_models(
                    es@[i].value,
                    ss[i].value,
                )),
        (Value::Array(vs), SpecValue::Array(ss)) => vs@.len() == ss.len()
            && (forall|i: int|
                #![trigger ss[i]]
                0 <= i < ss.len() ==> value_models(vs@[i], ss[i])),
        (Value::Void, SpecValue::Void) => true,
        _ => false,
    }
}

/// An executable table (ordered entry list) carries exactly its ghost model.
pub open spec fn entries_model(es: Seq<TableEntry>, ss: Seq<SpecEntry>) -> bool {
    es.len() == ss.len() && (forall|i: int|
        #![trigger ss[i]]
        0 <= i < ss.len() ==> es[i].key@ == ss[i].key && value_models(es[i].value, ss[i].value))
}

/// An executable value sequence carries exactly its ghost model.
pub open spec fn values_model(vs: Seq<Value>, ss: Seq<SpecValue>) -> bool {
    vs.len() == ss.len() && (forall|i: int|
        #![trigger ss[i]]
        0 <= i < ss.len() ==> value_models(vs[i], ss[i]))
}

/// Insertion into a field table: a re-declared key overwrites the prior
/// value in place, a new key is appended, so first-seen ordering of
/// distinct keys is preserved.
pub open spec fn upsert(entries: Seq<SpecEntry>, key: Seq<char>, value: SpecValue) -> Seq<
    SpecEntry,
>
    decreases entries.len(),
{
    if entries.len() == 0 {
        seq![SpecEntry { key, value }]
    } else if entries[0].key == key {
        entries.update(0, SpecEntry { key, value })
    } else {
        seq![entries[0]] + upsert(entries.subrange(1, entries.len() as int), key, value)
    }
}

/// When `key` first occurs at index `i`, upsert replaces exactly that entry.
pub proof fn lemma_upsert_found(entries: Seq<SpecEntry>, key: Seq<char>, value: SpecValue, i: int)
    requires
        0 <= i < entries.len(),
        entries[i].key == key,
        forall|j: int| 0 <= j < i ==> #[trigger] entries[j].key != key,
    ensures
        upsert(entries, key, value) =~= entries.update(i, SpecEntry { key, value }),
    decreases entries.len(),
{
    if i == 0 {
    } else {
        let rest = entries.subrange(1, entries.len() as int);
        assert(entries[0].key != key);
        lemma_upsert_found(rest, key, value, i - 1);
        assert(upsert(entries, key, value) =~= seq![entries[0]] + rest.update(
            i - 1,
            SpecEntry { key, value },
        ));
    }
}

/// When `key` occurs nowhere, upsert appends a new entry.
pub proof fn lemma_upsert_absent(entries: Seq<SpecEntry>, key: Seq<char>, value: SpecValue)
    requires
        forall|j: int| 0 <= j < entries.len() ==> #[trigger] entries[j].key != key,
    ensures
        upsert(entries, key, value) =~= entries.push(SpecEntry { key, value }),
    decreases entries.len(),
{
    if entries.len() == 0 {
    } else {
        let rest = entries.subrange(1, entries.len() as int);
        lemma_upsert_absent(rest, key, value);
    }
}

/// No key occurs twice among the entries.
pub open spec fn distinct_keys(entries: Seq<SpecEntry>) -> bool {
    forall|i: int, j: int|
        0 <= i < j < entries.len() ==> #[trigger] entries[i].key != #[trigger] entries[j].key
}

/// Every key of an upsert result is the inserted key or one already there.
pub proof fn lemma_upsert_keys(entries: Seq<SpecEntry>, key: Seq<char>, value: SpecValue)
    ensures
        forall|i: int|
            0 <= i < upsert(entries, key, value).len() ==> #[trigger] upsert(
                entries,
                key,
                value,
            )[i].key == key || (exists|j: int|
                0 <= j < entries.len() && #[trigger] entries[j].key == upsert(
                    entries,
                    key,
                    value,
                )[i].key),
    decreases entries.len(),
{
    if entries.len() == 0 {
    } else if entries[0].key == key {
    } else {
        let rest = entries.subrange(1, entries.len() as int);
        lemma_upsert_keys(rest, key, value);
        assert forall|i: int| 0 <= i < upsert(entries, key, value).len() implies #[trigger] upsert(
            entries,
            key,
            value,
        )[i].key == key || (exists|j: int|
            0 <= j < entries.len() && #[trigger] entries[j].key == upsert(
                entries,
                key,
                value,
            )[i].key) by {
            if i == 0 {
                assert(entries[0].key == upsert(entries, key, value)[0].key);
            } else {
                let r = upsert(rest, key, value);
                assert(upsert(entries, key, value)[i] == r[i - 1]);
                if r[i - 1].key != key {
                    let j = choose|j: int| 0 <= j < rest.len() && #[trigger] rest[j].key == r[
                        i - 1
                    ].key;
                    assert(entries[j + 1].key == r[i - 1].key);
                }
            }
        }
    }
}

/// Upsert keeps the keys pairwise distinct: replacing in place adds no
/// duplicate, and a new key is appended only when absent.
pub proof fn lemma_upsert_distinct(entries: Seq<SpecEntry>, key: Seq<char>, value: SpecValue)
    requires
        distinct_keys(entries),
    ensures
        distinct_keys(upsert(entries, key, value)),
    decreases entries.len(),
{
    if entries.len() == 0 {
    } else if entries[0].key == key {
        let r = upsert(entries, key, value);
        assert(forall|i: int| 0 <= i < r.len() ==> #[trigger] r[i].key == entries[i].key);
    } else {
        let rest = entries.subrange(1, entries.len() as int);
        assert(distinct_keys(rest)) by {
            assert(forall|i: int| 0 <= i < rest.len() ==> #[trigger] rest[i] == entries[i + 1]);
        }
        lemma_upsert_distinct(rest, key, value);
        lemma_upsert_keys(rest, key, value);
        let r = upsert(entries, key, value);
        assert forall|i: int, j: int| 0 <= i < j < r.len() implies #[trigger] r[i].key
            != #[trigger] r[j].key by {
            if i == 0 {
                assert(r[0].key == entries[0].key);
                let rr = upsert(rest, key, value);
                assert(r[j] == rr[j - 1]);
                if rr[j - 1].key != key {
                    let m = choose|m: int| 0 <= m < rest.len() && #[trigger] rest[m].key == rr[
                        j - 1
                    ].key;
                    assert(entries[m + 1].key == rr[j - 1].key);
                }
            } else {
                let rr = upsert(rest, key, value);
                assert(r[i] == rr[i - 1] && r[j] == rr[j - 1]);
            }
        }
    }
}

/// Replaces the value under `key`, or appends the pair, per [`upsert`].
pub(crate) fn table_upsert(
    entries: &mut Vec<TableEntry>,
    key: String,
    value: Value,
    model: Ghost<Seq<SpecEntry>>,
    vmodel: Ghost<SpecValue>,
)
    requires
        entries_model(old(entries)@, model@),
        value_models(value, vmodel@),
    ensures
        entries_model(final(entries)@, upsert(model@, key@, vmodel@)),
{
    let ghost target = upsert(model@, key@, vmodel@);
    let n = entries.len();
    let mut i: usize = 0;
    while i < n
        invariant
            n == entries.len(),
            entries_model(entries@, model@),
            value_models(value, vmodel@),
            target == upsert(model@, key@, vmodel@),
            forall|j: int| 0 <= j < i ==> #[trigger] model@[j].key != key@,
        decreases n - i,
    {
        if entries[i].key == key {
            proof {
                lemma_upsert_found(model@, key@, vmodel@, i as int);
            }
            entries.set(i, TableEntry { key, value });
            assert(entries_model(entries@, target));
            return ;
        }
        i += 1;
    }
    proof {
        lemma_upsert_absent(model@, key@, vmodel@);
    }
    entries.push(TableEntry { key, value });
    assert(entries_model(entries@, target));
}

} // verus!
