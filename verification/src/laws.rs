//! Laws of the decoder, proved over the same spec functions that the
//! executable functions' contracts use.

use vstd::prelude::*;

use crate::decode::{decode_spec, dispatch_spec, format_step, is_outer_tag};
use crate::item::{array_items_spec, array_spec, item_spec, table_items_spec, table_spec};
use crate::scalars::{bytes_spec, long_string_spec, short_string_spec};
use crate::text::utf8_lossy;
use crate::value::{distinct_keys, lemma_upsert_distinct, upsert, DecodeError, SpecEntry, SpecValue};
use crate::wire::{be_bytes, be_of, lemma_be_of_bound, lemma_be_round_trip,
    lemma_signed_round_trip, pow256, unsigned_in};

verus! {

/// A short-text read whose declared length overruns the buffer still
/// succeeds: it yields exactly the bytes present, decoded leniently, and
/// stops at the buffer end.
pub proof fn lemma_short_string_truncated(buf: Seq<u8>, pos: nat)
    requires
        pos + 1 <= buf.len(),
        pos + 1 + buf[pos as int] > buf.len(),
    ensures
        short_string_spec(buf, pos) == Ok::<_, DecodeError>(
            (utf8_lossy(buf.subrange(pos as int + 1, buf.len() as int)), buf.len() as nat),
        ),
{
    crate::wire::lemma_be_of_singleton(buf, pos);
}

/// A long-text read whose declared length overruns the buffer still
/// succeeds, stopping at the buffer end.
pub proof fn lemma_long_string_truncated(buf: Seq<u8>, pos: nat)
    requires
        pos + 4 <= buf.len(),
        pos + 4 + be_of(buf.subrange(pos as int, pos as int + 4)) > buf.len(),
    ensures
        long_string_spec(buf, pos) == Ok::<_, DecodeError>(
            (utf8_lossy(buf.subrange(pos as int + 4, buf.len() as int)), buf.len() as nat),
        ),
{
}

/// A byte-blob read whose declared length overruns the buffer still
/// succeeds, yielding exactly the bytes present and stopping at the buffer
/// end.
pub proof fn lemma_bytes_truncated(buf: Seq<u8>, pos: nat)
    requires
        pos + 4 <= buf.len(),
        pos + 4 + be_of(buf.subrange(pos as int, pos as int + 4)) > buf.len(),
    ensures
        bytes_spec(buf, pos) == Ok::<_, DecodeError>(
            (buf.subrange(pos as int + 4, buf.len() as int), buf.len() as nat),
        ),
{
}

/// An unknown byte in the field-table tag vocabulary fails with a
/// malformed-tag error naming the byte; it is never skipped or defaulted.
pub proof fn lemma_unknown_table_tag(buf: Seq<u8>, pos: nat)
    requires
        pos < buf.len(),
        !crate::item::is_table_tag(buf[pos as int]),
    ensures
        item_spec(buf, pos) == Err::<(SpecValue, nat), _>(
            DecodeError::MalformedTableTag(buf[pos as int]),
        ),
{
}

/// An unknown character heading the format descriptor fails with a
/// malformed-tag error naming the character; no value sequence is returned.
pub proof fn lemma_unknown_format_tag(fmt: Seq<char>, buf: Seq<u8>, offset: nat)
    requires
        fmt.len() > 0,
        !is_outer_tag(fmt[0]),
    ensures
        decode_spec(fmt, buf, offset) == Err::<(Seq<SpecValue>, nat), _>(
            DecodeError::MalformedFormatTag(fmt[0]),
        ),
{
}

/// A decode succeeds only when every character of the format descriptor is
/// a known outer tag: an unknown tag anywhere is never silently skipped.
pub proof fn lemma_success_needs_known_tags(
    fmt: Seq<char>,
    buf: Seq<u8>,
    pos: nat,
    bits: u8,
    remaining: u8,
    acc: Seq<SpecValue>,
)
    requires
        dispatch_spec(fmt, buf, pos, bits, remaining, acc) is Ok,
    ensures
        forall|i: int| 0 <= i < fmt.len() ==> is_outer_tag(#[trigger] fmt[i]),
    decreases fmt.len(),
{
    if fmt.len() > 0 {
        assert(is_outer_tag(fmt[0]));
        match format_step(fmt[0], buf, pos, bits, remaining) {
            Err(_) => {},
            Ok((v, p, nb, nr)) => {
                lemma_success_needs_known_tags(fmt.drop_first(), buf, p, nb, nr, acc.push(v));
                assert(forall|i: int|
                    1 <= i < fmt.len() ==> is_outer_tag(#[trigger] fmt[i]) == is_outer_tag(
                        fmt.drop_first()[i - 1],
                    ));
            },
        }
    }
}

/// A successfully decoded field-table item always advances the position
/// and never runs past the buffer.
pub proof fn lemma_item_spec_bounds(buf: Seq<u8>, pos: nat)
    ensures
        item_spec(buf, pos) matches Ok((v, end)) ==> pos < end <= buf.len(),
    decreases buf.len() - pos, 1int,
{
    if pos + 1 <= buf.len() {
        let tag = buf[pos as int];
        let p = (pos + 1) as nat;
        if tag == crate::item::TAG_TABLE {
            lemma_table_spec_bounds(buf, p);
        } else if tag == crate::item::TAG_ARRAY {
            lemma_array_spec_bounds(buf, p);
        }
    }
}

/// A successfully decoded nested table consumes its four-byte length
/// prefix and at least the declared payload length, never running past the
/// buffer: the declared length never exceeds what its entries consume.
pub proof fn lemma_table_spec_bounds(buf: Seq<u8>, pos: nat)
    ensures
        table_spec(buf, pos) matches Ok((es, end)) ==> pos + 4 + be_of(
            buf.subrange(pos as int, pos as int + 4),
        ) <= end <= buf.len(),
    decreases buf.len() - pos, 2int,
{
    if pos + 4 <= buf.len() {
        let n = be_of(buf.subrange(pos as int, pos as int + 4));
        lemma_table_items_spec_bounds(buf, (pos + 4) as nat, pos + 4 + n, Seq::empty());
    }
}

/// The table pair loop stops at or past its limit and inside the buffer,
/// whatever it has accumulated.
pub proof fn lemma_table_items_spec_bounds(
    buf: Seq<u8>,
    pos: nat,
    limit: nat,
    acc: Seq<SpecEntry>,
)
    requires
        pos <= buf.len(),
    ensures
        table_items_spec(buf, pos, limit, acc) matches Ok((es, end)) ==> pos <= end <= buf.len()
            && end >= limit,
    decreases buf.len() - pos, 0int,
{
    if pos >= limit {
    } else {
        match short_string_spec(buf, pos) {
            Err(_) => {},
            Ok((key, k)) => {
                if pos < k <= buf.len() {
                    match item_spec(buf, k) {
                        Err(_) => {},
                        Ok((v, p2)) => {
                            if k < p2 <= buf.len() {
                                lemma_table_items_spec_bounds(
                                    buf,
                                    p2,
                                    limit,
                                    upsert(acc, key, v),
                                );
                            }
                        },
                    }
                }
            },
        }
    }
}

/// A successfully decoded nested array consumes its four-byte length
/// prefix and at least the declared payload length, never running past the
/// buffer: the declared length never exceeds what its items consume.
pub proof fn lemma_array_spec_bounds(buf: Seq<u8>, pos: nat)
    ensures
        array_spec(buf, pos) matches Ok((vs, end)) ==> pos + 4 + be_of(
            buf.subrange(pos as int, pos as int + 4),
        ) <= end <= buf.len(),
    decreases buf.len() - pos, 2int,
{
    if pos + 4 <= buf.len() {
        let n = be_of(buf.subrange(pos as int, pos as int + 4));
        lemma_array_items_spec_bounds(buf, (pos + 4) as nat, pos + 4 + n, Seq::empty());
    }
}

/// The array item loop stops at or past its limit and inside the buffer,
/// whatever it has accumulated.
pub proof fn lemma_array_items_spec_bounds(
    buf: Seq<u8>,
    pos: nat,
    limit: nat,
    acc: Seq<SpecValue>,
)
    requires
        pos <= buf.len(),
    ensures
        array_items_spec(buf, pos, limit, acc) matches Ok((vs, end)) ==> pos <= end <= buf.len()
            && end >= limit,
    decreases buf.len() - pos, 0int,
{
    if pos >= limit {
    } else {
        match item_spec(buf, pos) {
            Err(_) => {},
            Ok((v, p2)) => {
                if pos < p2 <= buf.len() {
                    lemma_array_items_spec_bounds(buf, p2, limit, acc.push(v));
                }
            },
        }
    }
}

/// The `i`th bit of `v`, least significant first.
pub open spec fn nth_bit(v: u8, i: u8) -> bool {
    ((v >> i) & 1) == 1
}

/// A format descriptor of `n` consecutive boolean tags.
pub open spec fn bool_run(n: nat) -> Seq<char> {
    Seq::new(n, |i: int| 'b')
}

/// A run of `m` boolean tags served entirely from buffered bits neither
/// moves the cursor nor reads a byte: it yields the buffered bits in order.
proof fn lemma_bits_buffered(
    buf: Seq<u8>,
    pos: nat,
    bits: u8,
    remaining: u8,
    m: nat,
    acc: Seq<SpecValue>,
)
    requires
        m <= remaining <= 8,
    ensures
        dispatch_spec(bool_run(m), buf, pos, bits, remaining, acc) == Ok::<_, DecodeError>(
            (acc + Seq::new(m, |i: int| SpecValue::Bool(nth_bit(bits, i as u8))), pos),
        ),
    decreases m,
{
    if m == 0 {
        assert(acc + Seq::new(0, |i: int| SpecValue::Bool(nth_bit(bits, i as u8))) =~= acc);
    } else {
        let run = bool_run(m);
        assert(run[0] == 'b');
        let v = (bits & 1) == 1;
        lemma_bits_buffered(
            buf,
            pos,
            bits >> 1,
            (remaining - 1) as u8,
            (m - 1) as nat,
            acc.push(SpecValue::Bool(v)),
        );
        assert(run.drop_first() =~= bool_run((m - 1) as nat));
        assert(((bits >> 0) & 1) == (bits & 1)) by (bit_vector);
        assert(forall|i: u8|
            i < 7 ==> ((((bits >> 1) >> i) & 1) == ((bits >> (i + 1) as u8) & 1))) by (bit_vector);
        assert(acc.push(SpecValue::Bool(v)) + Seq::new(
            (m - 1) as nat,
            |i: int| SpecValue::Bool(nth_bit(bits >> 1, i as u8)),
        ) =~= acc + Seq::new(m, |i: int| SpecValue::Bool(nth_bit(bits, i as u8))));
    }
}

/// A run of `1 <= m <= 8` boolean tags starting with no buffered bits
/// consumes exactly one byte, whatever the run length, and yields that
/// byte's bits least-significant first.
proof fn lemma_bits_fresh(buf: Seq<u8>, pos: nat, bits0: u8, m: nat, acc: Seq<SpecValue>)
    requires
        1 <= m <= 8,
        pos < buf.len(),
    ensures
        dispatch_spec(bool_run(m), buf, pos, bits0, 0, acc) == Ok::<_, DecodeError>(
            (
                acc + Seq::new(m, |i: int| SpecValue::Bool(nth_bit(buf[pos as int], i as u8))),
                pos + 1,
            ),
        ),
{
    let b = buf[pos as int];
    let run = bool_run(m);
    assert(run[0] == 'b');
    let v = (b & 1) == 1;
    lemma_bits_buffered(buf, pos + 1, b >> 1, 7, (m - 1) as nat, acc.push(SpecValue::Bool(v)));
    assert(run.drop_first() =~= bool_run((m - 1) as nat));
    assert(((b >> 0) & 1) == (b & 1)) by (bit_vector);
    assert(forall|i: u8| i < 7 ==> ((((b >> 1) >> i) & 1) == ((b >> (i + 1) as u8) & 1)))
        by (bit_vector);
    assert(acc.push(SpecValue::Bool(v)) + Seq::new(
        (m - 1) as nat,
        |i: int| SpecValue::Bool(nth_bit(b >> 1, i as u8)),
    ) =~= acc + Seq::new(m, |i: int| SpecValue::Bool(nth_bit(b, i as u8))));
}

/// A run one longer than the buffered bits crosses into a fresh byte: it
/// yields the buffered bits, then the next byte's first bit, and consumes
/// that one byte.
proof fn lemma_bits_cross(buf: Seq<u8>, pos: nat, bits: u8, remaining: u8, acc: Seq<SpecValue>)
    requires
        remaining <= 8,
        pos < buf.len(),
    ensures
        dispatch_spec(bool_run(remaining as nat + 1), buf, pos, bits, remaining, acc) == Ok::<
            _,
            DecodeError,
        >(
            (
                acc + Seq::new(
                    remaining as nat,
                    |i: int| SpecValue::Bool(nth_bit(bits, i as u8)),
                ).push(SpecValue::Bool(nth_bit(buf[pos as int], 0))),
                pos + 1,
            ),
        ),
    decreases remaining,
{
    let b = buf[pos as int];
    if remaining == 0 {
        lemma_bits_fresh(buf, pos, bits, 1, acc);
        assert(((b >> 0) & 1) == (b & 1)) by (bit_vector);
        assert(acc + Seq::new(1, |i: int| SpecValue::Bool(nth_bit(b, i as u8))) =~= acc + Seq::new(
            0,
            |i: int| SpecValue::Bool(nth_bit(bits, i as u8)),
        ).push(SpecValue::Bool(nth_bit(b, 0))));
    } else {
        let m = remaining as nat + 1;
        let run = bool_run(m);
        assert(run[0] == 'b');
        let v = (bits & 1) == 1;
        lemma_bits_cross(
            buf,
            pos,
            bits >> 1,
            (remaining - 1) as u8,
            acc.push(SpecValue::Bool(v)),
        );
        assert(run.drop_first() =~= bool_run((remaining - 1) as nat + 1));
        assert(((bits >> 0) & 1) == (bits & 1)) by (bit_vector);
        assert(forall|i: u8|
            i < 7 ==> ((((bits >> 1) >> i) & 1) == ((bits >> (i + 1) as u8) & 1))) by (bit_vector);
        assert(acc.push(SpecValue::Bool(v)) + Seq::new(
            (remaining - 1) as nat,
            |i: int| SpecValue::Bool(nth_bit(bits >> 1, i as u8)),
        ).push(SpecValue::Bool(nth_bit(b, 0))) =~= acc + Seq::new(
            remaining as nat,
            |i: int| SpecValue::Bool(nth_bit(bits, i as u8)),
        ).push(SpecValue::Bool(nth_bit(b, 0))));
    }
}

/// Decoding a descriptor of `1 <= n <= 8` boolean tags over one packed
/// byte yields the byte's bits least-significant first and consumes
/// exactly one byte, whatever the run length.
pub proof fn lemma_bool_run_packs(v: u8, n: nat)
    requires
        1 <= n <= 8,
    ensures
        decode_spec(bool_run(n), seq![v], 0) == Ok::<_, DecodeError>(
            (Seq::new(n, |i: int| SpecValue::Bool(nth_bit(v, i as u8))), 1nat),
        ),
{
    let buf = seq![v];
    lemma_bits_fresh(buf, 0, 0, n, Seq::empty());
    assert(Seq::empty() + Seq::new(n, |i: int| SpecValue::Bool(nth_bit(v, i as u8))) =~= Seq::new(
        n,
        |i: int| SpecValue::Bool(nth_bit(v, i as u8)),
    ));
}

/// A ninth consecutive boolean tag consumes a second byte: over two packed
/// bytes the run yields the first byte's eight bits, then the second
/// byte's first bit, and ends at offset two.
pub proof fn lemma_ninth_bool_second_byte(v1: u8, v2: u8)
    ensures
        decode_spec(bool_run(9), seq![v1, v2], 0) == Ok::<_, DecodeError>(
            (
                Seq::new(8, |i: int| SpecValue::Bool(nth_bit(v1, i as u8))).push(
                    SpecValue::Bool(nth_bit(v2, 0)),
                ),
                2nat,
            ),
        ),
{
    let buf = seq![v1, v2];
    let run = bool_run(9);
    assert(run[0] == 'b');
    let b0 = (v1 & 1) == 1;
    lemma_bits_cross(buf, 1, v1 >> 1, 7, seq![SpecValue::Bool(b0)]);
    assert(run.drop_first() =~= bool_run(8));
    assert(((v1 >> 0) & 1) == (v1 & 1)) by (bit_vector);
    assert(forall|i: u8| i < 7 ==> ((((v1 >> 1) >> i) & 1) == ((v1 >> (i + 1) as u8) & 1)))
        by (bit_vector);
    assert(seq![SpecValue::Bool(b0)] + Seq::new(
        7,
        |i: int| SpecValue::Bool(nth_bit(v1 >> 1, i as u8)),
    ).push(SpecValue::Bool(nth_bit(v2, 0))) =~= Seq::new(
        8,
        |i: int| SpecValue::Bool(nth_bit(v1, i as u8)),
    ).push(SpecValue::Bool(nth_bit(v2, 0))));
}

/// The payload of a fixed-width read re-encodes to itself, and its value
/// is bounded by its width.
proof fn lemma_payload_round_trip(buf: Seq<u8>, a: nat, w: nat)
    requires
        a + w <= buf.len(),
    ensures
        be_bytes(be_of(buf.subrange(a as int, a as int + w)), w) =~= buf.subrange(
            a as int,
            a as int + w,
        ),
        be_of(buf.subrange(a as int, a as int + w)) < pow256(w),
{
    let payload = buf.subrange(a as int, a as int + w);
    lemma_be_round_trip(payload);
    lemma_be_of_bound(payload);
}

/// Decoding never loses a fixed-width numeric field: re-encoding the
/// decoded value big-endian over the tag's width reproduces the payload
/// bytes exactly, for every fixed-width numeric tag of the field-table
/// vocabulary (signed values re-encode through their two's-complement bit
/// pattern; floats and timestamps through their raw bits).
pub proof fn lemma_item_fixed_width_round_trip(buf: Seq<u8>, pos: nat)
    ensures
        item_spec(buf, pos) matches Ok((SpecValue::UInt8(v), end)) ==> be_bytes(v as nat, 1)
            =~= buf.subrange(pos as int + 1, end as int),
        item_spec(buf, pos) matches Ok((SpecValue::Int8(v), end)) ==> be_bytes(
            unsigned_in(v as int, 0x100),
            1,
        ) =~= buf.subrange(pos as int + 1, end as int),
        item_spec(buf, pos) matches Ok((SpecValue::UInt16(v), end)) ==> be_bytes(v as nat, 2)
            =~= buf.subrange(pos as int + 1, end as int),
        item_spec(buf, pos) matches Ok((SpecValue::Int16(v), end)) ==> be_bytes(
            unsigned_in(v as int, 0x1_0000),
            2,
        ) =~= buf.subrange(pos as int + 1, end as int),
        item_spec(buf, pos) matches Ok((SpecValue::UInt32(v), end)) ==> be_bytes(v as nat, 4)
            =~= buf.subrange(pos as int + 1, end as int),
        item_spec(buf, pos) matches Ok((SpecValue::Int32(v), end)) ==> be_bytes(
            unsigned_in(v as int, 0x1_0000_0000),
            4,
        ) =~= buf.subrange(pos as int + 1, end as int),
        item_spec(buf, pos) matches Ok((SpecValue::UInt64(v), end)) ==> be_bytes(v as nat, 8)
            =~= buf.subrange(pos as int + 1, end as int),
        item_spec(buf, pos) matches Ok((SpecValue::Int64(v), end)) ==> be_bytes(
            unsigned_in(v as int, 0x1_0000_0000_0000_0000),
            8,
        ) =~= buf.subrange(pos as int + 1, end as int),
        item_spec(buf, pos) matches Ok((SpecValue::Float32(v), end)) ==> be_bytes(v as nat, 4)
            =~= buf.subrange(pos as int + 1, end as int),
        item_spec(buf, pos) matches Ok((SpecValue::Float64(v), end)) ==> be_bytes(v as nat, 8)
            =~= buf.subrange(pos as int + 1, end as int),
        item_spec(buf, pos) matches Ok((SpecValue::Timestamp(v), end)) ==> be_bytes(v as nat, 8)
            =~= buf.subrange(pos as int + 1, end as int),
{
    reveal_with_fuel(pow256, 9);
    if pos + 1 <= buf.len() {
        let p = (pos + 1) as nat;
        if p + 1 <= buf.len() {
            lemma_payload_round_trip(buf, p, 1);
            lemma_signed_round_trip(be_of(buf.subrange(p as int, p as int + 1)));
        }
        if p + 2 <= buf.len() {
            lemma_payload_round_trip(buf, p, 2);
            lemma_signed_round_trip(be_of(buf.subrange(p as int, p as int + 2)));
        }
        if p + 4 <= buf.len() {
            lemma_payload_round_trip(buf, p, 4);
            lemma_signed_round_trip(be_of(buf.subrange(p as int, p as int + 4)));
        }
        if p + 8 <= buf.len() {
            lemma_payload_round_trip(buf, p, 8);
            lemma_signed_round_trip(be_of(buf.subrange(p as int, p as int + 8)));
        }
    }
}

/// The same round trip for the fixed-width numeric tags of the outer
/// format-descriptor vocabulary, whose payload starts at the tag's own
/// position in the buffer.
pub proof fn lemma_format_fixed_width_round_trip(
    c: char,
    buf: Seq<u8>,
    pos: nat,
    bits: u8,
    remaining: u8,
)
    ensures
        format_step(c, buf, pos, bits, remaining) matches Ok((SpecValue::UInt8(v), end, nb, nr))
            ==> be_bytes(v as nat, 1) =~= buf.subrange(pos as int, end as int),
        format_step(c, buf, pos, bits, remaining) matches Ok((SpecValue::UInt16(v), end, nb, nr))
            ==> be_bytes(v as nat, 2) =~= buf.subrange(pos as int, end as int),
        format_step(c, buf, pos, bits, remaining) matches Ok((SpecValue::UInt32(v), end, nb, nr))
            ==> be_bytes(v as nat, 4) =~= buf.subrange(pos as int, end as int),
        format_step(c, buf, pos, bits, remaining) matches Ok((SpecValue::UInt64(v), end, nb, nr))
            ==> be_bytes(v as nat, 8) =~= buf.subrange(pos as int, end as int),
        format_step(c, buf, pos, bits, remaining) matches Ok((SpecValue::Float32(v), end, nb, nr))
            ==> be_bytes(v as nat, 4) =~= buf.subrange(pos as int, end as int),
        format_step(c, buf, pos, bits, remaining) matches Ok((SpecValue::Timestamp(v), end, nb, nr))
            ==> be_bytes(v as nat, 8) =~= buf.subrange(pos as int, end as int),
{
    reveal_with_fuel(pow256, 9);
    if pos + 1 <= buf.len() {
        lemma_payload_round_trip(buf, pos, 1);
    }
    if pos + 2 <= buf.len() {
        lemma_payload_round_trip(buf, pos, 2);
    }
    if pos + 4 <= buf.len() {
        lemma_payload_round_trip(buf, pos, 4);
    }
    if pos + 8 <= buf.len() {
        lemma_payload_round_trip(buf, pos, 8);
    }
}

/// One outer tag never moves the position backwards nor past the buffer.
proof fn lemma_format_step_bounds(c: char, buf: Seq<u8>, pos: nat, bits: u8, remaining: u8)
    requires
        pos <= buf.len(),
    ensures
        format_step(c, buf, pos, bits, remaining) matches Ok((v, p, nb, nr)) ==> pos <= p
            <= buf.len(),
{
    if c == 'F' {
        lemma_table_spec_bounds(buf, pos);
    } else if c == 'A' {
        lemma_array_spec_bounds(buf, pos);
    }
}

/// The dispatcher appends exactly one value per format tag, and the final
/// offset never lies before the start nor past the buffer end: the
/// returned offset is the start plus the bytes consumed.
pub proof fn lemma_one_value_per_tag(
    fmt: Seq<char>,
    buf: Seq<u8>,
    pos: nat,
    bits: u8,
    remaining: u8,
    acc: Seq<SpecValue>,
)
    requires
        pos <= buf.len(),
    ensures
        dispatch_spec(fmt, buf, pos, bits, remaining, acc) matches Ok((vs, end)) ==> vs.len()
            == acc.len() + fmt.len() && pos <= end <= buf.len(),
    decreases fmt.len(),
{
    if fmt.len() > 0 {
        lemma_format_step_bounds(fmt[0], buf, pos, bits, remaining);
        match format_step(fmt[0], buf, pos, bits, remaining) {
            Err(_) => {},
            Ok((v, p, nb, nr)) => {
                lemma_one_value_per_tag(fmt.drop_first(), buf, p, nb, nr, acc.push(v));
            },
        }
    }
}

/// A whole decode yields exactly one value per format tag and an offset
/// between the start offset and the buffer end.
pub proof fn lemma_decode_one_value_per_tag(fmt: Seq<char>, buf: Seq<u8>, offset: nat)
    requires
        offset <= buf.len(),
    ensures
        decode_spec(fmt, buf, offset) matches Ok((vs, end)) ==> vs.len() == fmt.len() && offset
            <= end <= buf.len(),
{
    lemma_one_value_per_tag(fmt, buf, offset, 0, 0, Seq::empty());
}

/// A decoded field table behaves as an ordinary map: its keys are pairwise
/// distinct, because a re-declared key overwrites its first occurrence in
/// place instead of adding an entry.
pub proof fn lemma_table_keys_distinct(buf: Seq<u8>, pos: nat)
    ensures
        table_spec(buf, pos) matches Ok((es, end)) ==> distinct_keys(es),
{
    if pos + 4 <= buf.len() {
        let n = be_of(buf.subrange(pos as int, pos as int + 4));
        lemma_table_items_distinct(buf, (pos + 4) as nat, pos + 4 + n, Seq::empty());
    }
}

/// The table pair loop keeps keys pairwise distinct, iteration by
/// iteration.
proof fn lemma_table_items_distinct(buf: Seq<u8>, pos: nat, limit: nat, acc: Seq<SpecEntry>)
    requires
        pos <= buf.len(),
        distinct_keys(acc),
    ensures
        table_items_spec(buf, pos, limit, acc) matches Ok((es, end)) ==> distinct_keys(es),
    decreases buf.len() - pos, 0int,
{
    if pos >= limit {
    } else {
        match short_string_spec(buf, pos) {
            Err(_) => {},
            Ok((key, k)) => {
                if pos < k <= buf.len() {
                    match item_spec(buf, k) {
                        Err(_) => {},
                        Ok((v, p2)) => {
                            if k < p2 <= buf.len() {
                                lemma_upsert_distinct(acc, key, v);
                                lemma_table_items_distinct(buf, p2, limit, upsert(acc, key, v));
                            }
                        },
                    }
                }
            },
        }
    }
}

} // verus!
