//! Checksummed canonical binary documents for structured values.
use vstd::prelude::*;
use vstd::utf8::{encode_utf8, valid_utf8};

use crate::digest::{blake3_digest, blake3_hash, crc32c_append, crc32c_append_value};
use crate::value::{
    Comparison, entry_models_of, lemma_entry_models_of, lemma_models_of, model_canonical, model_of, models_of,
    value_canonical, Value, ValueModel,
};

verus! {

/// Maximum canonical document payload bytes.
pub const MAX_DOCUMENT_BYTES: usize = 16_777_216;

/// Maximum nested array/object depth, with the root at depth zero.
pub const MAX_DOCUMENT_DEPTH: usize = 64;

/// Maximum values decoded from one document.
pub const MAX_DOCUMENT_NODES: usize = 1_000_000;

/// Version of the document envelope.
pub const DOCUMENT_FORMAT_VERSION: u16 = 1;

/// Length of the document header.
pub const DOCUMENT_HEADER_LENGTH: usize = 56;

/// Failure while encoding or verifying one canonical structured document.
#[derive(Clone, Copy, Debug, PartialEq, Eq)]
pub enum DocumentError {
    /// Canonical payload exceeds the hard bound.
    TooLarge {
        /// Observed or attempted payload length.
        actual: usize,
        /// Hard maximum.
        maximum: usize,
    },
    /// Array/object nesting exceeds the hard bound.
    TooDeep {
        /// Hard maximum.
        maximum: usize,
    },
    /// Value count exceeds the hard bound.
    TooManyNodes {
        /// Hard maximum.
        maximum: usize,
    },
    /// Length cannot be represented by the canonical format.
    LengthOverflow,
    /// Encoded bytes are truncated or structurally noncanonical.
    Invalid {
        /// Stable diagnostic reason.
        reason: &'static str,
    },
    /// Document format is newer than this binary.
    UnsupportedVersion {
        /// Version found on disk.
        found: u16,
        /// Highest supported version.
        supported: u16,
    },
    /// Fast accidental-corruption check failed.
    ChecksumMismatch,
    /// Canonical content digest failed.
    DigestMismatch,
    /// A string or object key is not UTF-8.
    InvalidUtf8,
}

// ---------------------------------------------------------------------------
// Fixed-width little-endian integers.

/// Little-endian bytes of a 64-bit value.
pub open spec fn u64_le(x: u64) -> Seq<u8> {
    seq![
        x as u8,
        (x >> 8u64) as u8,
        (x >> 16u64) as u8,
        (x >> 24u64) as u8,
        (x >> 32u64) as u8,
        (x >> 40u64) as u8,
        (x >> 48u64) as u8,
        (x >> 56u64) as u8,
    ]
}

/// The 64-bit value of eight little-endian bytes.
pub open spec fn le_u64(b: Seq<u8>) -> u64 {
    (b[0] as u64) | ((b[1] as u64) << 8u64) | ((b[2] as u64) << 16u64) | ((b[3] as u64) << 24u64)
        | ((b[4] as u64) << 32u64) | ((b[5] as u64) << 40u64) | ((b[6] as u64) << 48u64) | ((
    b[7] as u64) << 56u64)
}

/// Little-endian bytes of a 32-bit value.
pub open spec fn u32_le(x: u32) -> Seq<u8> {
    seq![x as u8, (x >> 8u32) as u8, (x >> 16u32) as u8, (x >> 24u32) as u8]
}

/// The 32-bit value of four little-endian bytes.
pub open spec fn le_u32(b: Seq<u8>) -> u32 {
    (b[0] as u32) | ((b[1] as u32) << 8u32) | ((b[2] as u32) << 16u32) | ((b[3] as u32) << 24u32)
}

/// Little-endian bytes of a 16-bit value.
pub open spec fn u16_le(x: u16) -> Seq<u8> {
    seq![x as u8, (x >> 8u16) as u8]
}

/// The 16-bit value of two little-endian bytes.
pub open spec fn le_u16(b: Seq<u8>) -> u16 {
    (b[0] as u16) | ((b[1] as u16) << 8u16)
}

/// Decoding the little-endian bytes of a value gives it back.
pub proof fn lemma_u64_le_round_trip(x: u64)
    ensures
        le_u64(u64_le(x)) == x,
{
    let b = u64_le(x);
    let (b0, b1, b2, b3, b4, b5, b6, b7) = (b[0], b[1], b[2], b[3], b[4], b[5], b[6], b[7]);
    assert((b0 as u64) | ((b1 as u64) << 8u64) | ((b2 as u64) << 16u64) | ((b3 as u64) << 24u64)
        | ((b4 as u64) << 32u64) | ((b5 as u64) << 40u64) | ((b6 as u64) << 48u64) | ((b7 as u64)
        << 56u64) == x) by (bit_vector)
        requires
            b0 == x as u8,
            b1 == (x >> 8u64) as u8,
            b2 == (x >> 16u64) as u8,
            b3 == (x >> 24u64) as u8,
            b4 == (x >> 32u64) as u8,
            b5 == (x >> 40u64) as u8,
            b6 == (x >> 48u64) as u8,
            b7 == (x >> 56u64) as u8,
    ;
}

/// Eight bytes are the little-endian bytes of the value they denote.
pub proof fn lemma_le_u64_bytes(b: Seq<u8>)
    requires
        b.len() == 8,
    ensures
        u64_le(le_u64(b)) == b,
{
    let (b0, b1, b2, b3, b4, b5, b6, b7) = (b[0], b[1], b[2], b[3], b[4], b[5], b[6], b[7]);
    let x = le_u64(b);
    assert(x as u8 == b0 && (x >> 8u64) as u8 == b1 && (x >> 16u64) as u8 == b2 && (x >> 24u64) as u8
        == b3 && (x >> 32u64) as u8 == b4 && (x >> 40u64) as u8 == b5 && (x >> 48u64) as u8 == b6 && (x
        >> 56u64) as u8 == b7) by (bit_vector)
        requires
            x == (b0 as u64) | ((b1 as u64) << 8u64) | ((b2 as u64) << 16u64) | ((b3 as u64) << 24u64)
                | ((b4 as u64) << 32u64) | ((b5 as u64) << 40u64) | ((b6 as u64) << 48u64) | ((
            b7 as u64) << 56u64),
    ;
    assert(u64_le(x) =~= b);
}

/// Decoding the little-endian bytes of a 32-bit value gives it back.
pub proof fn lemma_u32_le_round_trip(x: u32)
    ensures
        le_u32(u32_le(x)) == x,
{
    let b = u32_le(x);
    let (b0, b1, b2, b3) = (b[0], b[1], b[2], b[3]);
    assert((b0 as u32) | ((b1 as u32) << 8u32) | ((b2 as u32) << 16u32) | ((b3 as u32) << 24u32) == x)
        by (bit_vector)
        requires
            b0 == x as u8,
            b1 == (x >> 8u32) as u8,
            b2 == (x >> 16u32) as u8,
            b3 == (x >> 24u32) as u8,
    ;
}

/// Decoding the little-endian bytes of a 16-bit value gives it back.
pub proof fn lemma_u16_le_round_trip(x: u16)
    ensures
        le_u16(u16_le(x)) == x,
{
    let b = u16_le(x);
    let (b0, b1) = (b[0], b[1]);
    assert((b0 as u16) | ((b1 as u16) << 8u16) == x) by (bit_vector)
        requires
            b0 == x as u8,
            b1 == (x >> 8u16) as u8,
    ;
}

/// Appends the little-endian bytes of a 64-bit value.
pub fn push_u64_le(out: &mut Vec<u8>, x: u64)
    ensures
        final(out)@ == old(out)@ + u64_le(x),
{
    out.push(x as u8);
    out.push((x >> 8) as u8);
    out.push((x >> 16) as u8);
    out.push((x >> 24) as u8);
    out.push((x >> 32) as u8);
    out.push((x >> 40) as u8);
    out.push((x >> 48) as u8);
    out.push((x >> 56) as u8);
    proof {
        assert(final(out)@ =~= old(out)@ + u64_le(x));
    }
}

/// Appends the little-endian bytes of a 32-bit value.
pub fn push_u32_le(out: &mut Vec<u8>, x: u32)
    ensures
        final(out)@ == old(out)@ + u32_le(x),
{
    out.push(x as u8);
    out.push((x >> 8) as u8);
    out.push((x >> 16) as u8);
    out.push((x >> 24) as u8);
    proof {
        assert(final(out)@ =~= old(out)@ + u32_le(x));
    }
}

/// Appends the little-endian bytes of a 16-bit value.
pub fn push_u16_le(out: &mut Vec<u8>, x: u16)
    ensures
        final(out)@ == old(out)@ + u16_le(x),
{
    out.push(x as u8);
    out.push((x >> 8) as u8);
    proof {
        assert(final(out)@ =~= old(out)@ + u16_le(x));
    }
}

/// Reads eight little-endian bytes at `pos`.
pub fn read_u64_le(b: &[u8], pos: usize) -> (r: u64)
    requires
        pos + 8 <= b@.len(),
    ensures
        r == le_u64(b@.subrange(pos as int, pos + 8)),
{
    (b[pos] as u64) | ((b[pos + 1] as u64) << 8) | ((b[pos + 2] as u64) << 16) | ((b[pos + 3] as u64)
        << 24) | ((b[pos + 4] as u64) << 32) | ((b[pos + 5] as u64) << 40) | ((b[pos + 6] as u64)
        << 48) | ((b[pos + 7] as u64) << 56)
}

/// Reads four little-endian bytes at `pos`.
pub fn read_u32_le(b: &[u8], pos: usize) -> (r: u32)
    requires
        pos + 4 <= b@.len(),
    ensures
        r == le_u32(b@.subrange(pos as int, pos + 4)),
{
    (b[pos] as u32) | ((b[pos + 1] as u32) << 8) | ((b[pos + 2] as u32) << 16) | ((b[pos + 3] as u32)
        << 24)
}

/// Reads two little-endian bytes at `pos`.
pub fn read_u16_le(b: &[u8], pos: usize) -> (r: u16)
    requires
        pos + 2 <= b@.len(),
    ensures
        r == le_u16(b@.subrange(pos as int, pos + 2)),
{
    (b[pos] as u16) | ((b[pos + 1] as u16) << 8)
}


// ---------------------------------------------------------------------------
// Canonical payload of a value.

/// Tag, little-endian length, and bytes.
pub open spec fn length_prefixed(tag: Seq<u8>, b: Seq<u8>) -> Seq<u8> {
    tag + u64_le(b.len() as u64) + b
}

/// The canonical payload of a value: a tag byte, then the contents; arrays
/// and objects give their length and then their children in order.
pub open spec fn ser(v: ValueModel) -> Seq<u8>
    decreases v,
{
    match v {
        ValueModel::Null => seq![0u8],
        ValueModel::Boolean(b) => if b {
            seq![2u8]
        } else {
            seq![1u8]
        },
        ValueModel::Integer(n) => seq![3u8] + u64_le((n as i64) as u64),
        ValueModel::Text(b) => length_prefixed(seq![4u8], b),
        ValueModel::Bytes(b) => length_prefixed(seq![5u8], b),
        ValueModel::Array(items) => seq![6u8] + u64_le(items.len() as u64) + ser_items(items),
        ValueModel::Object(entries) => seq![7u8] + u64_le(entries.len() as u64) + ser_entries(entries),
    }
}

/// The payloads of array items, in order.
pub open spec fn ser_items(items: Seq<ValueModel>) -> Seq<u8>
    decreases items,
{
    if items.len() == 0 {
        Seq::empty()
    } else {
        ser_items(items.subrange(0, items.len() - 1)) + ser(items[items.len() - 1])
    }
}

/// The payloads of object entries, in order: each key length-prefixed, then
/// its value.
pub open spec fn ser_entries(entries: Seq<(Seq<u8>, ValueModel)>) -> Seq<u8>
    decreases entries,
{
    if entries.len() == 0 {
        Seq::empty()
    } else {
        ser_entries(entries.subrange(0, entries.len() - 1)) + u64_le(
            entries[entries.len() - 1].0.len() as u64,
        ) + entries[entries.len() - 1].0 + ser(entries[entries.len() - 1].1)
    }
}

/// Number of values in a value, itself included.
pub open spec fn node_count(v: ValueModel) -> int
    decreases v,
{
    match v {
        ValueModel::Array(items) => 1 + count_items(items),
        ValueModel::Object(entries) => 1 + count_entries(entries),
        _ => 1,
    }
}

/// Number of values in array items.
pub open spec fn count_items(items: Seq<ValueModel>) -> int
    decreases items,
{
    if items.len() == 0 {
        0
    } else {
        count_items(items.subrange(0, items.len() - 1)) + node_count(items[items.len() - 1])
    }
}

/// Number of values in object entries.
pub open spec fn count_entries(entries: Seq<(Seq<u8>, ValueModel)>) -> int
    decreases entries,
{
    if entries.len() == 0 {
        0
    } else {
        count_entries(entries.subrange(0, entries.len() - 1)) + node_count(
            entries[entries.len() - 1].1,
        )
    }
}

/// No value nests deeper than the maximum, the value itself at `depth`.
pub open spec fn depth_ok(v: ValueModel, depth: int) -> bool
    decreases v,
{
    depth <= MAX_DOCUMENT_DEPTH && match v {
        ValueModel::Array(items) => forall|i: int|
            0 <= i < items.len() ==> depth_ok(#[trigger] items[i], depth + 1),
        ValueModel::Object(entries) => forall|i: int|
            0 <= i < entries.len() ==> depth_ok(#[trigger] entries[i].1, depth + 1),
        _ => true,
    }
}

/// A value fits in one document.
pub open spec fn within_limits(v: ValueModel) -> bool {
    &&& depth_ok(v, 0)
    &&& node_count(v) <= MAX_DOCUMENT_NODES
    &&& ser(v).len() <= MAX_DOCUMENT_BYTES
}

/// A failure that encoding `v` at `depth` may raise, after `len` payload
/// bytes and `nodes` values: a limit that the value breaks.
pub open spec fn encode_fault(e: DocumentError, v: ValueModel, depth: int, len: int, nodes: int) -> bool {
    ||| e == DocumentError::TooDeep { maximum: MAX_DOCUMENT_DEPTH } && !depth_ok(v, depth)
    ||| e == DocumentError::TooManyNodes { maximum: MAX_DOCUMENT_NODES } && nodes + node_count(v)
        > MAX_DOCUMENT_NODES
    ||| e matches DocumentError::TooLarge { actual, maximum } && maximum == MAX_DOCUMENT_BYTES && actual
        > MAX_DOCUMENT_BYTES && len + ser(v).len() > MAX_DOCUMENT_BYTES
    ||| e == DocumentError::LengthOverflow && len + ser(v).len() > usize::MAX
}

/// A failure that encoding array items may raise.
pub open spec fn items_fault(e: DocumentError, items: Seq<ValueModel>, depth: int, len: int, nodes: int) -> bool {
    ||| e == DocumentError::TooDeep { maximum: MAX_DOCUMENT_DEPTH } && exists|k: int|
        0 <= k < items.len() && !depth_ok(#[trigger] items[k], depth)
    ||| e == DocumentError::TooManyNodes { maximum: MAX_DOCUMENT_NODES } && nodes + count_items(items)
        > MAX_DOCUMENT_NODES
    ||| e matches DocumentError::TooLarge { actual, maximum } && maximum == MAX_DOCUMENT_BYTES && actual
        > MAX_DOCUMENT_BYTES && len + ser_items(items).len() > MAX_DOCUMENT_BYTES
    ||| e == DocumentError::LengthOverflow && len + ser_items(items).len() > usize::MAX
}

/// A failure that encoding object entries may raise.
pub open spec fn entries_fault(
    e: DocumentError,
    entries: Seq<(Seq<u8>, ValueModel)>,
    depth: int,
    len: int,
    nodes: int,
) -> bool {
    ||| e == DocumentError::TooDeep { maximum: MAX_DOCUMENT_DEPTH } && exists|k: int|
        0 <= k < entries.len() && !depth_ok(#[trigger] entries[k].1, depth)
    ||| e == DocumentError::TooManyNodes { maximum: MAX_DOCUMENT_NODES } && nodes + count_entries(entries)
        > MAX_DOCUMENT_NODES
    ||| e matches DocumentError::TooLarge { actual, maximum } && maximum == MAX_DOCUMENT_BYTES && actual
        > MAX_DOCUMENT_BYTES && len + ser_entries(entries).len() > MAX_DOCUMENT_BYTES
    ||| e == DocumentError::LengthOverflow && len + ser_entries(entries).len() > usize::MAX
}

proof fn lemma_count_positive(v: ValueModel)
    ensures
        node_count(v) >= 1,
    decreases v,
{
    match v {
        ValueModel::Array(items) => lemma_count_items_nonneg(items),
        ValueModel::Object(entries) => lemma_count_entries_nonneg(entries),
        _ => {},
    }
}

proof fn lemma_count_items_nonneg(items: Seq<ValueModel>)
    ensures
        count_items(items) >= 0,
    decreases items,
{
    if items.len() > 0 {
        lemma_count_items_nonneg(items.subrange(0, items.len() - 1));
        lemma_count_positive(items[items.len() - 1]);
    }
}

proof fn lemma_count_entries_nonneg(entries: Seq<(Seq<u8>, ValueModel)>)
    ensures
        count_entries(entries) >= 0,
    decreases entries,
{
    if entries.len() > 0 {
        lemma_count_entries_nonneg(entries.subrange(0, entries.len() - 1));
        lemma_count_positive(entries[entries.len() - 1].1);
    }
}

/// Prefixes of items grow in payload and count.
proof fn lemma_items_prefix(items: Seq<ValueModel>, i: int, j: int)
    requires
        0 <= i <= j <= items.len(),
    ensures
        ser_items(items.subrange(0, i)).len() <= ser_items(items.subrange(0, j)).len(),
        ser_items(items.subrange(0, i)) == ser_items(items.subrange(0, j)).subrange(
            0,
            ser_items(items.subrange(0, i)).len() as int,
        ),
        count_items(items.subrange(0, i)) <= count_items(items.subrange(0, j)),
    decreases j - i,
{
    if i < j {
        lemma_items_prefix(items, i, j - 1);
        let p = items.subrange(0, j);
        assert(p.subrange(0, p.len() - 1) =~= items.subrange(0, j - 1));
        lemma_count_positive(items[j - 1]);
        let a = ser_items(items.subrange(0, i));
        let b = ser_items(items.subrange(0, j - 1));
        assert(ser_items(p) == b + ser(items[j - 1]));
        assert((b + ser(items[j - 1])).subrange(0, a.len() as int) =~= b.subrange(0, a.len() as int));
    }
}

/// Prefixes of entries grow in payload and count.
proof fn lemma_entries_prefix(entries: Seq<(Seq<u8>, ValueModel)>, i: int, j: int)
    requires
        0 <= i <= j <= entries.len(),
    ensures
        ser_entries(entries.subrange(0, i)).len() <= ser_entries(entries.subrange(0, j)).len(),
        ser_entries(entries.subrange(0, i)) == ser_entries(entries.subrange(0, j)).subrange(
            0,
            ser_entries(entries.subrange(0, i)).len() as int,
        ),
        count_entries(entries.subrange(0, i)) <= count_entries(entries.subrange(0, j)),
    decreases j - i,
{
    if i < j {
        lemma_entries_prefix(entries, i, j - 1);
        let p = entries.subrange(0, j);
        assert(p.subrange(0, p.len() - 1) =~= entries.subrange(0, j - 1));
        lemma_count_positive(entries[j - 1].1);
        let a = ser_entries(entries.subrange(0, i));
        let b = ser_entries(entries.subrange(0, j - 1));
        let tail = u64_le(entries[j - 1].0.len() as u64) + entries[j - 1].0 + ser(entries[j - 1].1);
        assert(ser_entries(p) == b + tail);
        assert((b + tail).subrange(0, a.len() as int) =~= b.subrange(0, a.len() as int));
    }
}


// ---------------------------------------------------------------------------
// Encoding.

/// Appends bytes unless the payload would exceed its bound.
fn append(out: &mut Vec<u8>, bytes: &[u8]) -> (r: Result<(), DocumentError>)
    requires
        old(out)@.len() <= MAX_DOCUMENT_BYTES,
    ensures
        match r {
            Ok(()) => final(out)@ == old(out)@ + bytes@ && final(out)@.len() <= MAX_DOCUMENT_BYTES,
            Err(e) => (e matches DocumentError::TooLarge { actual, maximum } && maximum
                == MAX_DOCUMENT_BYTES && actual > MAX_DOCUMENT_BYTES && old(out)@.len() + bytes@.len()
                > MAX_DOCUMENT_BYTES) || (e == DocumentError::LengthOverflow && old(out)@.len()
                + bytes@.len() > usize::MAX),
        },
{
    let next = match out.len().checked_add(bytes.len()) {
        Some(n) => n,
        None => {
            return Err(DocumentError::LengthOverflow);
        },
    };
    if next > MAX_DOCUMENT_BYTES {
        return Err(DocumentError::TooLarge { actual: next, maximum: MAX_DOCUMENT_BYTES });
    }
    let mut i: usize = 0;
    let ghost start = out@;
    while i < bytes.len()
        invariant
            i <= bytes@.len(),
            out@ == start + bytes@.subrange(0, i as int),
        decreases bytes@.len() - i,
    {
        out.push(bytes[i]);
        proof {
            assert(bytes@.subrange(0, i + 1) =~= bytes@.subrange(0, i as int).push(bytes@[i as int]));
        }
        i = i + 1;
    }
    proof {
        assert(bytes@.subrange(0, bytes@.len() as int) =~= bytes@);
    }
    Ok(())
}

/// Appends the little-endian bytes of a length or integer.
fn append_u64(out: &mut Vec<u8>, x: u64) -> (r: Result<(), DocumentError>)
    requires
        old(out)@.len() <= MAX_DOCUMENT_BYTES,
    ensures
        match r {
            Ok(()) => final(out)@ == old(out)@ + u64_le(x) && final(out)@.len() <= MAX_DOCUMENT_BYTES,
            Err(e) => e matches DocumentError::TooLarge { actual, maximum } && maximum
                == MAX_DOCUMENT_BYTES && actual > MAX_DOCUMENT_BYTES && old(out)@.len() + 8
                > MAX_DOCUMENT_BYTES,
        },
{
    let mut bytes: Vec<u8> = Vec::new();
    push_u64_le(&mut bytes, x);
    append(out, bytes.as_slice())
}

/// Appends a length prefix and the bytes.
fn append_prefixed(out: &mut Vec<u8>, bytes: &[u8]) -> (r: Result<(), DocumentError>)
    requires
        old(out)@.len() <= MAX_DOCUMENT_BYTES,
    ensures
        match r {
            Ok(()) => final(out)@ == old(out)@ + u64_le(bytes@.len() as u64) + bytes@ && final(out)@.len() <= MAX_DOCUMENT_BYTES,
            Err(e) => (e matches DocumentError::TooLarge { actual, maximum } && maximum
                == MAX_DOCUMENT_BYTES && actual > MAX_DOCUMENT_BYTES && old(out)@.len() + 8
                + bytes@.len() > MAX_DOCUMENT_BYTES) || (e == DocumentError::LengthOverflow && old(out)@.len() + 8 + bytes@.len() > usize::MAX),
        },
{
    match append_u64(out, bytes.len() as u64) {
        Ok(()) => {},
        Err(e) => {
            return Err(e);
        },
    }
    let r = append(out, bytes);
    proof {
        if r is Ok {
            assert(final(out)@ =~= old(out)@ + u64_le(bytes@.len() as u64) + bytes@);
        }
    }
    r
}

fn encode_value(v: &Value, depth: usize, out: &mut Vec<u8>, nodes: &mut usize) -> (r: Result<
    (),
    DocumentError,
>)
    requires
        depth <= MAX_DOCUMENT_DEPTH + 1,
        old(out)@.len() <= MAX_DOCUMENT_BYTES,
        *old(nodes) <= MAX_DOCUMENT_NODES,
    ensures
        r is Ok <==> (depth_ok(model_of(*v), depth as int) && *old(nodes) + node_count(model_of(*v))
            <= MAX_DOCUMENT_NODES && old(out)@.len() + ser(model_of(*v)).len() <= MAX_DOCUMENT_BYTES),
        r is Ok ==> final(out)@ == old(out)@ + ser(model_of(*v)) && *final(nodes) == *old(nodes)
            + node_count(model_of(*v)),
        r matches Err(e) ==> encode_fault(
            e,
            model_of(*v),
            depth as int,
            old(out)@.len() as int,
            *old(nodes) as int,
        ),
    decreases *v,
{
    let ghost m = model_of(*v);
    let ghost out0 = out@;
    let ghost nodes0 = *nodes as int;
    proof {
        lemma_count_positive(m);
    }
    if depth > MAX_DOCUMENT_DEPTH {
        return Err(DocumentError::TooDeep { maximum: MAX_DOCUMENT_DEPTH });
    }
    if *nodes >= MAX_DOCUMENT_NODES {
        return Err(DocumentError::TooManyNodes { maximum: MAX_DOCUMENT_NODES });
    }
    *nodes = *nodes + 1;
    match v {
        Value::Null => {
            let r = append(out, &[0u8]);
            proof {
                assert(seq![0u8] =~= (&[0u8])@);
            }
            r
        },
        Value::Boolean(b) => {
            let tag: u8 = if *b {
                2
            } else {
                1
            };
            let r = append(out, &[tag]);
            proof {
                assert(seq![tag] =~= (&[tag])@);
            }
            r
        },
        Value::Integer(i) => {
            match append(out, &[3u8]) {
                Ok(()) => {},
                Err(e) => {
                    return Err(e);
                },
            }
            let r = append_u64(out, *i as u64);
            proof {
                assert(seq![3u8] =~= (&[3u8])@);
                if r is Ok {
                    assert(out@ =~= out0 + ser(m));
                }
            }
            r
        },
        Value::String(text) => {
            match append(out, &[4u8]) {
                Ok(()) => {},
                Err(e) => {
                    return Err(e);
                },
            }
            let r = append_prefixed(out, text.as_str().as_bytes());
            proof {
                assert(seq![4u8] =~= (&[4u8])@);
                if r is Ok {
                    assert(out@ =~= out0 + ser(m));
                }
            }
            r
        },
        Value::Bytes(bytes) => {
            match append(out, &[5u8]) {
                Ok(()) => {},
                Err(e) => {
                    return Err(e);
                },
            }
            let r = append_prefixed(out, bytes.as_slice());
            proof {
                assert(seq![5u8] =~= (&[5u8])@);
                if r is Ok {
                    assert(out@ =~= out0 + ser(m));
                }
            }
            r
        },
        Value::Array(items) => {
            match append(out, &[6u8]) {
                Ok(()) => {},
                Err(e) => {
                    return Err(e);
                },
            }
            proof {
                lemma_models_of(items@);
            }
            match append_u64(out, items.len() as u64) {
                Ok(()) => {},
                Err(e) => {
                    return Err(e);
                },
            }
            let ghost out1 = out@;
            proof {
                assert(seq![6u8] =~= (&[6u8])@);
                assert(out1 =~= out0 + seq![6u8] + u64_le(items@.len() as u64));
            }
            let r = encode_items(items, depth + 1, out, nodes);
            proof {
                if r is Ok {
                    assert(out@ =~= out0 + ser(m));
                }
            }
            r
        },
        Value::Object(entries) => {
            match append(out, &[7u8]) {
                Ok(()) => {},
                Err(e) => {
                    return Err(e);
                },
            }
            proof {
                lemma_entry_models_of(entries@);
            }
            match append_u64(out, entries.len() as u64) {
                Ok(()) => {},
                Err(e) => {
                    return Err(e);
                },
            }
            let ghost out1 = out@;
            proof {
                assert(seq![7u8] =~= (&[7u8])@);
                assert(out1 =~= out0 + seq![7u8] + u64_le(entries@.len() as u64));
            }
            let r = encode_entries(entries, depth + 1, out, nodes);
            proof {
                if r is Ok {
                    assert(out@ =~= out0 + ser(m));
                }
            }
            r
        },
    }
}

proof fn lemma_item_fault(
    e: DocumentError,
    ms: Seq<ValueModel>,
    i: int,
    depth: int,
    len0: int,
    nodes0: int,
    before_len: int,
    before_nodes: int,
)
    requires
        0 <= i < ms.len(),
        before_len == len0 + ser_items(ms.subrange(0, i)).len(),
        before_nodes == nodes0 + count_items(ms.subrange(0, i)),
        encode_fault(e, ms[i], depth, before_len, before_nodes),
    ensures
        items_fault(e, ms, depth, len0, nodes0),
        !((forall|k: int| 0 <= k < ms.len() ==> depth_ok(#[trigger] ms[k], depth)) && nodes0
            + count_items(ms) <= MAX_DOCUMENT_NODES && len0 + ser_items(ms).len() <= MAX_DOCUMENT_BYTES),
{
    let p = ms.subrange(0, i + 1);
    assert(p.subrange(0, p.len() - 1) =~= ms.subrange(0, i));
    assert(p[p.len() - 1] == ms[i]);
    lemma_items_prefix(ms, i + 1, ms.len() as int);
    assert(ms.subrange(0, ms.len() as int) =~= ms);
    if e == (DocumentError::TooDeep { maximum: MAX_DOCUMENT_DEPTH }) && !depth_ok(ms[i], depth) {
        assert(exists|k: int| 0 <= k < ms.len() && !depth_ok(#[trigger] ms[k], depth));
    }
}

proof fn lemma_entry_fault(
    e: DocumentError,
    ms: Seq<(Seq<u8>, ValueModel)>,
    i: int,
    depth: int,
    len0: int,
    nodes0: int,
    before_len: int,
    before_nodes: int,
)
    requires
        0 <= i < ms.len(),
        before_len == len0 + ser_entries(ms.subrange(0, i)).len() + 8 + ms[i].0.len(),
        before_nodes == nodes0 + count_entries(ms.subrange(0, i)),
        encode_fault(e, ms[i].1, depth, before_len, before_nodes),
    ensures
        entries_fault(e, ms, depth, len0, nodes0),
        !((forall|k: int| 0 <= k < ms.len() ==> depth_ok(#[trigger] ms[k].1, depth)) && nodes0
            + count_entries(ms) <= MAX_DOCUMENT_NODES && len0 + ser_entries(ms).len()
            <= MAX_DOCUMENT_BYTES),
{
    let p = ms.subrange(0, i + 1);
    assert(p.subrange(0, p.len() - 1) =~= ms.subrange(0, i));
    assert(p[p.len() - 1] == ms[i]);
    lemma_entries_prefix(ms, i + 1, ms.len() as int);
    assert(ms.subrange(0, ms.len() as int) =~= ms);
    if e == (DocumentError::TooDeep { maximum: MAX_DOCUMENT_DEPTH }) && !depth_ok(ms[i].1, depth) {
        assert(exists|k: int| 0 <= k < ms.len() && !depth_ok(#[trigger] ms[k].1, depth));
    }
}

proof fn lemma_entry_key_fault(
    e: DocumentError,
    ms: Seq<(Seq<u8>, ValueModel)>,
    i: int,
    depth: int,
    len0: int,
    nodes0: int,
    before_len: int,
)
    requires
        0 <= i < ms.len(),
        before_len == len0 + ser_entries(ms.subrange(0, i)).len(),
        (e matches DocumentError::TooLarge { actual, maximum } && maximum == MAX_DOCUMENT_BYTES && actual
            > MAX_DOCUMENT_BYTES && before_len + 8 + ms[i].0.len() > MAX_DOCUMENT_BYTES) || (e
            == DocumentError::LengthOverflow && before_len + 8 + ms[i].0.len() > usize::MAX),
    ensures
        entries_fault(e, ms, depth, len0, nodes0),
        !(len0 + ser_entries(ms).len() <= MAX_DOCUMENT_BYTES),
{
    let p = ms.subrange(0, i + 1);
    assert(p.subrange(0, p.len() - 1) =~= ms.subrange(0, i));
    assert(p[p.len() - 1] == ms[i]);
    lemma_entries_prefix(ms, i + 1, ms.len() as int);
    assert(ms.subrange(0, ms.len() as int) =~= ms);
}

fn encode_items(items: &Vec<Value>, depth: usize, out: &mut Vec<u8>, nodes: &mut usize) -> (r: Result<
    (),
    DocumentError,
>)
    requires
        depth <= MAX_DOCUMENT_DEPTH + 1,
        old(out)@.len() <= MAX_DOCUMENT_BYTES,
        *old(nodes) <= MAX_DOCUMENT_NODES,
    ensures
        r is Ok <==> ((forall|k: int|
            0 <= k < items@.len() ==> depth_ok(#[trigger] models_of(items@)[k], depth as int)) && *old(nodes) + count_items(models_of(items@)) <= MAX_DOCUMENT_NODES && old(out)@.len() + ser_items(
            models_of(items@),
        ).len() <= MAX_DOCUMENT_BYTES),
        r is Ok ==> final(out)@ == old(out)@ + ser_items(models_of(items@)) && *final(nodes) == *old(nodes) + count_items(models_of(items@)),
        r matches Err(e) ==> items_fault(
            e,
            models_of(items@),
            depth as int,
            old(out)@.len() as int,
            *old(nodes) as int,
        ),
    decreases items,
{
    let ghost ms = models_of(items@);
    let ghost out0 = out@;
    let ghost nodes0 = *nodes as int;
    proof {
        lemma_models_of(items@);
        lemma_count_items_nonneg(ms);
        assert(ms.subrange(0, 0) =~= Seq::<ValueModel>::empty());
    }
    let mut i: usize = 0;
    while i < items.len()
        invariant
            ms == models_of(items@),
            out0 == old(out)@,
            nodes0 == *old(nodes),
            ms.len() == items@.len(),
            forall|k: int| 0 <= k < items@.len() ==> #[trigger] ms[k] == model_of(items@[k]),
            depth <= MAX_DOCUMENT_DEPTH + 1,
            i <= items@.len(),
            out@ == out0 + ser_items(ms.subrange(0, i as int)),
            *nodes == nodes0 + count_items(ms.subrange(0, i as int)),
            out@.len() <= MAX_DOCUMENT_BYTES,
            *nodes <= MAX_DOCUMENT_NODES,
            forall|k: int| 0 <= k < i ==> depth_ok(#[trigger] ms[k], depth as int),
        decreases items@.len() - i,
    {
        let ghost before_out = out@;
        let ghost before_nodes = *nodes as int;
        let r = encode_value(&items[i], depth, out, nodes);
        match r {
            Ok(()) => {},
            Err(e) => {
                proof {
                    lemma_item_fault(e, ms, i as int, depth as int, out0.len() as int, nodes0, before_out.len() as int, before_nodes);
                }
                return Err(e);
            },
        }
        proof {
            let p = ms.subrange(0, i + 1);
            assert(p.subrange(0, p.len() - 1) =~= ms.subrange(0, i as int));
            assert(p[p.len() - 1] == ms[i as int]);
            assert(out@ =~= out0 + ser_items(p));
        }
        i = i + 1;
    }
    proof {
        assert(ms.subrange(0, ms.len() as int) =~= ms);
    }
    Ok(())
}

fn encode_entries(
    entries: &Vec<(String, Value)>,
    depth: usize,
    out: &mut Vec<u8>,
    nodes: &mut usize,
) -> (r: Result<(), DocumentError>)
    requires
        depth <= MAX_DOCUMENT_DEPTH + 1,
        old(out)@.len() <= MAX_DOCUMENT_BYTES,
        *old(nodes) <= MAX_DOCUMENT_NODES,
    ensures
        r is Ok <==> ((forall|k: int|
            0 <= k < entries@.len() ==> depth_ok(#[trigger] entry_models_of(entries@)[k].1, depth as int))
            && *old(nodes) + count_entries(entry_models_of(entries@)) <= MAX_DOCUMENT_NODES && old(out)@.len() + ser_entries(entry_models_of(entries@)).len() <= MAX_DOCUMENT_BYTES),
        r is Ok ==> final(out)@ == old(out)@ + ser_entries(entry_models_of(entries@)) && *final(nodes)
            == *old(nodes) + count_entries(entry_models_of(entries@)),
        r matches Err(e) ==> entries_fault(
            e,
            entry_models_of(entries@),
            depth as int,
            old(out)@.len() as int,
            *old(nodes) as int,
        ),
    decreases entries,
{
    let ghost ms = entry_models_of(entries@);
    let ghost out0 = out@;
    let ghost nodes0 = *nodes as int;
    proof {
        lemma_entry_models_of(entries@);
        lemma_count_entries_nonneg(ms);
        assert(ms.subrange(0, 0) =~= Seq::<(Seq<u8>, ValueModel)>::empty());
    }
    let mut i: usize = 0;
    while i < entries.len()
        invariant
            ms == entry_models_of(entries@),
            out0 == old(out)@,
            nodes0 == *old(nodes),
            ms.len() == entries@.len(),
            forall|k: int|
                0 <= k < entries@.len() ==> #[trigger] ms[k] == (
                    encode_utf8(entries@[k].0@),
                    model_of(entries@[k].1),
                ),
            depth <= MAX_DOCUMENT_DEPTH + 1,
            i <= entries@.len(),
            out@ == out0 + ser_entries(ms.subrange(0, i as int)),
            *nodes == nodes0 + count_entries(ms.subrange(0, i as int)),
            out@.len() <= MAX_DOCUMENT_BYTES,
            *nodes <= MAX_DOCUMENT_NODES,
            forall|k: int| 0 <= k < i ==> depth_ok(#[trigger] ms[k].1, depth as int),
        decreases entries@.len() - i,
    {
        let ghost before_out = out@;
        match append_prefixed(out, entries[i].0.as_str().as_bytes()) {
            Ok(()) => {},
            Err(e) => {
                proof {
                    lemma_entry_key_fault(e, ms, i as int, depth as int, out0.len() as int, nodes0, before_out.len() as int);
                }
                return Err(e);
            },
        }
        let ghost before_nodes = *nodes as int;
        let ghost key_out = out@;
        let r = encode_value(&entries[i].1, depth, out, nodes);
        match r {
            Ok(()) => {},
            Err(e) => {
                proof {
                    lemma_entry_fault(e, ms, i as int, depth as int, out0.len() as int, nodes0, key_out.len() as int, before_nodes);
                }
                return Err(e);
            },
        }
        proof {
            let p = ms.subrange(0, i + 1);
            assert(p.subrange(0, p.len() - 1) =~= ms.subrange(0, i as int));
            assert(p[p.len() - 1] == ms[i as int]);
            assert(out@ =~= out0 + ser_entries(p));
        }
        i = i + 1;
    }
    proof {
        assert(ms.subrange(0, ms.len() as int) =~= ms);
    }
    Ok(())
}


// ---------------------------------------------------------------------------
// The envelope.

/// `HYDOC001`.
pub open spec fn document_magic() -> Seq<u8> {
    seq![72u8, 89u8, 68u8, 79u8, 67u8, 48u8, 48u8, 49u8]
}

/// The header bytes before the checksum: magic, version, zero flags, and
/// payload length.
pub open spec fn document_header_prefix(payload_len: u64) -> Seq<u8> {
    document_magic() + u16_le(DOCUMENT_FORMAT_VERSION) + u16_le(0) + u64_le(payload_len)
}

/// The checksummed envelope of a payload: header prefix, CRC-32C of the
/// prefix and payload, BLAKE3 of the checksummed prefix and payload, then
/// the payload.
pub open spec fn document_envelope(payload: Seq<u8>) -> Seq<u8> {
    let h20 = document_header_prefix(payload.len() as u64);
    let crc = crc32c_append_value(crc32c_append_value(0, h20), payload);
    let h24 = h20 + u32_le(crc);
    h24 + blake3_hash(h24 + payload)@ + payload
}

/// An owned copy of `b[start..end]`.
pub fn copy_range(b: &[u8], start: usize, end: usize) -> (r: Vec<u8>)
    requires
        start <= end <= b@.len(),
    ensures
        r@ == b@.subrange(start as int, end as int),
{
    let mut out: Vec<u8> = Vec::new();
    let mut i: usize = start;
    while i < end
        invariant
            start <= i <= end <= b@.len(),
            out@ == b@.subrange(start as int, i as int),
        decreases end - i,
    {
        out.push(b[i]);
        proof {
            assert(b@.subrange(start as int, i + 1) =~= b@.subrange(start as int, i as int).push(b@[i as int]));
        }
        i = i + 1;
    }
    out
}

/// Appends all of `b`.
pub(crate) fn extend(out: &mut Vec<u8>, b: &[u8])
    ensures
        final(out)@ == old(out)@ + b@,
{
    let ghost start = out@;
    let mut i: usize = 0;
    while i < b.len()
        invariant
            i <= b@.len(),
            out@ == start + b@.subrange(0, i as int),
        decreases b@.len() - i,
    {
        out.push(b[i]);
        proof {
            assert(b@.subrange(0, i + 1) =~= b@.subrange(0, i as int).push(b@[i as int]));
        }
        i = i + 1;
    }
    proof {
        assert(b@.subrange(0, b@.len() as int) =~= b@);
    }
}

/// Wraps a canonical payload in the checksummed document envelope.
pub fn encode_envelope(payload: &[u8]) -> (r: Result<Vec<u8>, DocumentError>)
    ensures
        payload@.len() > MAX_DOCUMENT_BYTES ==> r == Err::<Vec<u8>, DocumentError>(
            DocumentError::TooLarge { actual: payload@.len() as usize, maximum: MAX_DOCUMENT_BYTES },
        ),
        payload@.len() <= MAX_DOCUMENT_BYTES ==> (r matches Ok(b) && b@ == document_envelope(payload@)),
{
    if payload.len() > MAX_DOCUMENT_BYTES {
        return Err(DocumentError::TooLarge { actual: payload.len(), maximum: MAX_DOCUMENT_BYTES });
    }
    let mut header: Vec<u8> = Vec::new();
    extend(&mut header, &[72u8, 89u8, 68u8, 79u8, 67u8, 48u8, 48u8, 49u8]);
    push_u16_le(&mut header, DOCUMENT_FORMAT_VERSION);
    push_u16_le(&mut header, 0);
    push_u64_le(&mut header, payload.len() as u64);
    proof {
        assert((&[72u8, 89u8, 68u8, 79u8, 67u8, 48u8, 48u8, 49u8])@ =~= document_magic());
        assert(header@ =~= document_header_prefix(payload@.len() as u64));
    }
    let checksum = crc32c_append(crc32c_append(0, header.as_slice()), payload);
    push_u32_le(&mut header, checksum);
    let mut digested = copy_range(header.as_slice(), 0, header.len());
    extend(&mut digested, payload);
    let digest = blake3_digest(digested.as_slice());
    let mut encoded = header;
    extend(&mut encoded, &digest);
    extend(&mut encoded, payload);
    proof {
        assert(header@.subrange(0, header@.len() as int) =~= header@);
        assert(encoded@ =~= document_envelope(payload@));
    }
    Ok(encoded)
}

/// Encodes one structured value into a checksummed canonical binary
/// document. A value holding an object whose keys are not strictly
/// increasing is refused; otherwise it fails exactly when the value exceeds
/// a document limit.
pub fn encode_document(value: &Value) -> (r: Result<Vec<u8>, DocumentError>)
    ensures
        !model_canonical(model_of(*value)) ==> r == Err::<Vec<u8>, DocumentError>(
            DocumentError::Invalid { reason: "object keys are not strictly increasing" },
        ),
        model_canonical(model_of(*value)) ==> (r is Ok <==> within_limits(model_of(*value))),
        r matches Ok(b) ==> b@ == document_envelope(ser(model_of(*value))),
        model_canonical(model_of(*value)) ==> (r matches Err(e) ==> encode_fault(e, model_of(*value), 0, 0, 0)),
{
    if !value_canonical(value) {
        return Err(DocumentError::Invalid { reason: "object keys are not strictly increasing" });
    }
    let mut payload: Vec<u8> = Vec::new();
    let mut nodes: usize = 0;
    match encode_value(value, 0, &mut payload, &mut nodes) {
        Ok(()) => {},
        Err(e) => {
            return Err(e);
        },
    }
    encode_envelope(payload.as_slice())
}


// ---------------------------------------------------------------------------
// Decoding.

/// Values that a document can hold: 64-bit integers and UTF-8 text.
pub open spec fn representable(v: ValueModel) -> bool
    decreases v,
{
    match v {
        ValueModel::Integer(n) => i64::MIN <= n <= i64::MAX,
        ValueModel::Text(b) => valid_utf8(b),
        ValueModel::Array(items) => forall|i: int|
            0 <= i < items.len() ==> representable(#[trigger] items[i]),
        ValueModel::Object(entries) => forall|i: int|
            0 <= i < entries.len() ==> valid_utf8(#[trigger] entries[i].0) && representable(
                entries[i].1,
            ),
        _ => true,
    }
}

/// `payload[pos..]` starts with the payload of `m`, a canonical value that
/// decoding at `depth` after `nodes` values accepts.
pub open spec fn decodable(m: ValueModel, payload: Seq<u8>, pos: int, depth: int, nodes: int) -> bool {
    &&& 0 <= pos
    &&& pos + ser(m).len() <= payload.len()
    &&& payload.subrange(pos, pos + ser(m).len()) == ser(m)
    &&& model_canonical(m)
    &&& representable(m)
    &&& depth_ok(m, depth)
    &&& nodes + node_count(m) <= MAX_DOCUMENT_NODES
}

/// `v` was decoded from `payload[pos..end]`.
pub open spec fn decoded_at(
    payload: Seq<u8>,
    pos: int,
    end: int,
    v: Value,
    depth: int,
    nodes: int,
    after: int,
) -> bool {
    &&& pos <= end <= payload.len()
    &&& payload.subrange(pos, end) == ser(model_of(v))
    &&& model_canonical(model_of(v))
    &&& depth_ok(model_of(v), depth)
    &&& after == nodes + node_count(model_of(v))
    &&& after <= MAX_DOCUMENT_NODES
}

/// The tag byte of a value's payload.
pub open spec fn tag_of(v: ValueModel) -> u8 {
    match v {
        ValueModel::Null => 0,
        ValueModel::Boolean(b) => if b {
            2
        } else {
            1
        },
        ValueModel::Integer(_) => 3,
        ValueModel::Text(_) => 4,
        ValueModel::Bytes(_) => 5,
        ValueModel::Array(_) => 6,
        ValueModel::Object(_) => 7,
    }
}

proof fn lemma_ser_shape(v: ValueModel)
    ensures
        ser(v).len() >= 1,
        ser(v)[0] == tag_of(v),
        tag_of(v) >= 3 ==> ser(v).len() >= 9,
        tag_of(v) >= 3 ==> ser(v).subrange(1, 9) == match v {
            ValueModel::Integer(n) => u64_le((n as i64) as u64),
            ValueModel::Text(b) => u64_le(b.len() as u64),
            ValueModel::Bytes(b) => u64_le(b.len() as u64),
            ValueModel::Array(items) => u64_le(items.len() as u64),
            ValueModel::Object(entries) => u64_le(entries.len() as u64),
            _ => Seq::empty(),
        },
{
    match v {
        ValueModel::Integer(n) => {
            assert(ser(v).subrange(1, 9) =~= u64_le((n as i64) as u64));
        },
        ValueModel::Text(b) => {
            assert(ser(v).subrange(1, 9) =~= u64_le(b.len() as u64));
        },
        ValueModel::Bytes(b) => {
            assert(ser(v).subrange(1, 9) =~= u64_le(b.len() as u64));
        },
        ValueModel::Array(items) => {
            assert(ser(v).subrange(1, 9) =~= u64_le(items.len() as u64));
        },
        ValueModel::Object(entries) => {
            assert(ser(v).subrange(1, 9) =~= u64_le(entries.len() as u64));
        },
        _ => {},
    }
}

/// `std::str::from_utf8` followed by `to_owned`: the text that the bytes
/// encode, or `None` when they are not valid UTF-8.
#[verifier::external_body]
pub(crate) fn utf8_text(bytes: &[u8]) -> (r: Option<String>)
    ensures
        match r {
            Some(s) => encode_utf8(s@) == bytes@,
            None => !valid_utf8(bytes@),
        },
{
    match std::str::from_utf8(bytes) {
        Ok(s) => Some(s.to_owned()),
        Err(_) => None,
    }
}

/// Reads a little-endian length at `pos`.
fn read_length(payload: &[u8], pos: usize) -> (r: Result<usize, DocumentError>)
    requires
        pos + 8 <= payload@.len(),
    ensures
        match r {
            Ok(n) => n == le_u64(payload@.subrange(pos as int, pos + 8)),
            Err(e) => e == DocumentError::LengthOverflow && le_u64(payload@.subrange(pos as int, pos + 8))
                > usize::MAX,
        },
{
    let n = read_u64_le(payload, pos);
    if n > usize::MAX as u64 {
        return Err(DocumentError::LengthOverflow);
    }
    Ok(n as usize)
}

/// Reads a length-prefixed byte run at `pos`: `(start, end)` of its bytes.
fn read_prefixed(payload: &[u8], pos: usize) -> (r: Result<(usize, usize), DocumentError>)
    requires
        pos <= payload@.len(),
    ensures
        r matches Ok((s, e)) ==> s == pos + 8 && s <= e <= payload@.len() && payload@.subrange(
            pos as int,
            e as int,
        ) == u64_le((e - s) as u64) + payload@.subrange(s as int, e as int),
        forall|b: Seq<u8>|
            pos + 8 + b.len() <= payload@.len() && payload@.subrange(pos as int, pos + 8 + b.len())
                == #[trigger] (u64_le(b.len() as u64) + b) ==> (r matches Ok((s, e)) && e == pos + 8
                + b.len() && payload@.subrange(s as int, e as int) == b),
{
    if payload.len() - pos < 8 {
        proof {
            assert forall|b: Seq<u8>|
                pos + 8 + b.len() <= payload@.len() && payload@.subrange(pos as int, pos + 8 + b.len())
                    == #[trigger] (u64_le(b.len() as u64) + b) implies false by {}
        }
        return Err(DocumentError::Invalid { reason: "truncated value payload" });
    }
    let length = match read_length(payload, pos) {
        Ok(n) => n,
        Err(e) => {
            proof {
                assert forall|b: Seq<u8>|
                    pos + 8 + b.len() <= payload@.len() && payload@.subrange(pos as int, pos + 8 + b.len())
                        == #[trigger] (u64_le(b.len() as u64) + b) implies false by {
                    assert(payload@.subrange(pos as int, pos + 8) =~= (u64_le(b.len() as u64) + b).subrange(0, 8));
                    assert((u64_le(b.len() as u64) + b).subrange(0, 8) =~= u64_le(b.len() as u64));
                    lemma_u64_le_round_trip(b.len() as u64);
                }
            }
            return Err(e);
        },
    };
    let start = pos + 8;
    proof {
        assert forall|b: Seq<u8>|
            pos + 8 + b.len() <= payload@.len() && payload@.subrange(pos as int, pos + 8 + b.len())
                == #[trigger] (u64_le(b.len() as u64) + b) implies length == b.len() && payload@.subrange(
            start as int,
            start + b.len(),
        ) == b by {
            assert(payload@.subrange(pos as int, pos + 8) =~= (u64_le(b.len() as u64) + b).subrange(0, 8));
            assert((u64_le(b.len() as u64) + b).subrange(0, 8) =~= u64_le(b.len() as u64));
            lemma_u64_le_round_trip(b.len() as u64);
            assert(payload@.subrange(start as int, start + b.len()) =~= (u64_le(b.len() as u64) + b).subrange(
                8,
                8 + b.len() as int,
            ));
            assert((u64_le(b.len() as u64) + b).subrange(8, 8 + b.len() as int) =~= b);
        }
    }
    if payload.len() - start < length {
        return Err(DocumentError::Invalid { reason: "truncated value payload" });
    }
    let end = start + length;
    proof {
        lemma_le_u64_bytes(payload@.subrange(pos as int, pos + 8));
        assert(payload@.subrange(pos as int, end as int) =~= payload@.subrange(pos as int, pos + 8)
            + payload@.subrange(start as int, end as int));
    }
    Ok((start, end))
}


/// `payload[pos..]` starts with the payloads of the items `ms`, canonical
/// values that decoding at `depth` after `nodes` values accepts.
pub open spec fn items_decodable(ms: Seq<ValueModel>, payload: Seq<u8>, pos: int, depth: int, nodes: int) -> bool {
    &&& 0 <= pos
    &&& pos + ser_items(ms).len() <= payload.len()
    &&& payload.subrange(pos, pos + ser_items(ms).len()) == ser_items(ms)
    &&& forall|k: int|
        0 <= k < ms.len() ==> model_canonical(#[trigger] ms[k]) && representable(ms[k]) && depth_ok(
            ms[k],
            depth,
        )
    &&& nodes + count_items(ms) <= MAX_DOCUMENT_NODES
}

/// `payload[pos..]` starts with the payloads of the entries `ms`: strictly
/// sorted UTF-8 keys and canonical values that decoding accepts.
pub open spec fn entries_decodable(
    ms: Seq<(Seq<u8>, ValueModel)>,
    payload: Seq<u8>,
    pos: int,
    depth: int,
    nodes: int,
) -> bool {
    &&& 0 <= pos
    &&& pos + ser_entries(ms).len() <= payload.len()
    &&& payload.subrange(pos, pos + ser_entries(ms).len()) == ser_entries(ms)
    &&& crate::value::keys_strictly_sorted(ms)
    &&& forall|k: int|
        0 <= k < ms.len() ==> valid_utf8(#[trigger] ms[k].0) && model_canonical(ms[k].1) && representable(
            ms[k].1,
        ) && depth_ok(ms[k].1, depth)
    &&& nodes + count_entries(ms) <= MAX_DOCUMENT_NODES
}

proof fn lemma_count_items_len(ms: Seq<ValueModel>)
    ensures
        count_items(ms) >= ms.len(),
    decreases ms.len(),
{
    if ms.len() > 0 {
        lemma_count_items_len(ms.subrange(0, ms.len() - 1));
        lemma_count_positive(ms[ms.len() - 1]);
    }
}

proof fn lemma_count_entries_len(ms: Seq<(Seq<u8>, ValueModel)>)
    ensures
        count_entries(ms) >= ms.len(),
    decreases ms.len(),
{
    if ms.len() > 0 {
        lemma_count_entries_len(ms.subrange(0, ms.len() - 1));
        lemma_count_positive(ms[ms.len() - 1].1);
    }
}

/// Item `i` of decodable items is decodable where its payload starts.
proof fn lemma_item_decodable(ms: Seq<ValueModel>, payload: Seq<u8>, pos: int, depth: int, nodes: int, i: int)
    requires
        items_decodable(ms, payload, pos, depth, nodes),
        0 <= i < ms.len(),
    ensures
        decodable(
            ms[i],
            payload,
            pos + ser_items(ms.subrange(0, i)).len(),
            depth,
            nodes + count_items(ms.subrange(0, i)),
        ),
        ser_items(ms.subrange(0, i + 1)) == ser_items(ms.subrange(0, i)) + ser(ms[i]),
        count_items(ms.subrange(0, i + 1)) == count_items(ms.subrange(0, i)) + node_count(ms[i]),
{
    let p = ms.subrange(0, i + 1);
    assert(p.subrange(0, p.len() - 1) =~= ms.subrange(0, i));
    assert(p[p.len() - 1] == ms[i]);
    lemma_items_prefix(ms, i + 1, ms.len() as int);
    assert(ms.subrange(0, ms.len() as int) =~= ms);
    let a = ser_items(ms.subrange(0, i));
    let c = pos + a.len();
    let whole = ser_items(ms);
    assert(whole.subrange(0, ser_items(p).len() as int) == ser_items(p));
    let al: int = a.len() as int;
    let sl: int = ser(ms[i]).len() as int;
    let sp = ser_items(p);
    assert(sp.len() == al + sl);
    assert(sp.subrange(al, al + sl) =~= ser(ms[i]));
    assert(whole.subrange(0, sp.len() as int) == sp);
    assert(whole.subrange(al, al + sl) =~= sp.subrange(al, al + sl));
    assert(payload.subrange(pos, pos + whole.len()) == whole);
    assert(payload.subrange(c, c + sl) =~= whole.subrange(al, al + sl));
}

/// Entry `i` of decodable entries: its key and value at their offsets.
proof fn lemma_entry_decodable(
    ms: Seq<(Seq<u8>, ValueModel)>,
    payload: Seq<u8>,
    pos: int,
    depth: int,
    nodes: int,
    i: int,
)
    requires
        entries_decodable(ms, payload, pos, depth, nodes),
        0 <= i < ms.len(),
    ensures
        ({
            let c = pos + ser_entries(ms.subrange(0, i)).len();
            &&& c + 8 + ms[i].0.len() <= payload.len()
            &&& payload.subrange(c, c + 8 + ms[i].0.len()) == u64_le(ms[i].0.len() as u64) + ms[i].0
            &&& decodable(ms[i].1, payload, c + 8 + ms[i].0.len(), depth, nodes + count_entries(ms.subrange(0, i)))
        }),
        ser_entries(ms.subrange(0, i + 1)) == ser_entries(ms.subrange(0, i)) + u64_le(ms[i].0.len() as u64)
            + ms[i].0 + ser(ms[i].1),
        count_entries(ms.subrange(0, i + 1)) == count_entries(ms.subrange(0, i)) + node_count(ms[i].1),
{
    let p = ms.subrange(0, i + 1);
    assert(p.subrange(0, p.len() - 1) =~= ms.subrange(0, i));
    assert(p[p.len() - 1] == ms[i]);
    lemma_entries_prefix(ms, i + 1, ms.len() as int);
    assert(ms.subrange(0, ms.len() as int) =~= ms);
    let a = ser_entries(ms.subrange(0, i));
    let c = pos + a.len();
    let whole = ser_entries(ms);
    let k = ms[i].0;
    let tail = u64_le(k.len() as u64) + k + ser(ms[i].1);
    assert(ser_entries(p) == a + tail);
    assert(whole.subrange(0, ser_entries(p).len() as int) == ser_entries(p));
    let al: int = a.len() as int;
    let kl: int = k.len() as int;
    let vl: int = ser(ms[i].1).len() as int;
    assert(payload.subrange(c, c + 8 + kl) =~= whole.subrange(al, al + 8 + kl));
    assert((a + tail).subrange(al, al + 8 + kl) =~= u64_le(k.len() as u64) + k);
    let sp = a + tail;
    assert(sp.len() == al + 8 + kl + vl);
    assert(sp.subrange(al + 8 + kl, al + 8 + kl + vl) =~= ser(ms[i].1));
    assert(whole.subrange(0, sp.len() as int) == sp);
    assert(whole.subrange(al + 8 + kl, al + 8 + kl + vl) =~= sp.subrange(al + 8 + kl, al + 8 + kl + vl));
    assert(whole.subrange(al, al + 8 + kl) =~= sp.subrange(al, al + 8 + kl));
    assert(payload.subrange(pos, pos + whole.len()) == whole);
    assert(payload.subrange(c + 8 + kl, c + 8 + kl + vl) =~= whole.subrange(al + 8 + kl, al + 8 + kl + vl));
}

proof fn lemma_models_of_push(vals: Seq<Value>, v: Value)
    ensures
        models_of(vals.push(v)) == models_of(vals).push(model_of(v)),
{
    let s = vals.push(v);
    assert(s.subrange(0, s.len() - 1) =~= vals);
}

proof fn lemma_entry_models_of_push(es: Seq<(String, Value)>, e: (String, Value))
    ensures
        entry_models_of(es.push(e)) == entry_models_of(es).push((encode_utf8(e.0@), model_of(e.1))),
{
    let s = es.push(e);
    assert(s.subrange(0, s.len() - 1) =~= es);
}


pub(crate) proof fn lemma_i64_bits(x: u64, y: i64)
    ensures
        (x as i64) as u64 == x,
        (y as u64) as i64 == y,
{
    assert((x as i64) as u64 == x) by (bit_vector);
    assert((y as u64) as i64 == y) by (bit_vector);
}

/// Decoding at `pos` succeeds exactly on the payload of a decodable value.
pub open spec fn decode_result_ok(
    payload: Seq<u8>,
    pos: int,
    depth: int,
    nodes: int,
    r: Result<(Value, usize, usize), DocumentError>,
) -> bool {
    &&& r matches Ok((v, end, after)) ==> decoded_at(payload, pos, end as int, v, depth, nodes, after as int)
    &&& forall|m: ValueModel|
        #[trigger] decodable(m, payload, pos, depth, nodes) ==> (r matches Ok((v, end, after))
            && model_of(v) == m && end == pos + ser(m).len())
}

/// What every decodable value at `pos` shares once its tag byte is read.
pub open spec fn tag_read(payload: Seq<u8>, pos: int, depth: int, nodes: int, tag: u8) -> bool {
    &&& 0 <= pos < payload.len()
    &&& payload.len() <= usize::MAX
    &&& payload[pos] == tag
    &&& depth <= MAX_DOCUMENT_DEPTH
    &&& nodes < MAX_DOCUMENT_NODES
    &&& forall|m: ValueModel| #[trigger] decodable(m, payload, pos, depth, nodes) ==> tag == tag_of(m)
}

fn decode_value(payload: &[u8], pos: usize, depth: usize, nodes: usize) -> (r: Result<
    (Value, usize, usize),
    DocumentError,
>)
    requires
        pos <= payload@.len(),
        depth <= MAX_DOCUMENT_DEPTH + 1,
        nodes <= MAX_DOCUMENT_NODES,
    ensures
        decode_result_ok(payload@, pos as int, depth as int, nodes as int, r),
    decreases MAX_DOCUMENT_DEPTH + 2 - depth, 2nat,
{
    let ghost pl = payload@;
    if depth > MAX_DOCUMENT_DEPTH {
        return Err(DocumentError::TooDeep { maximum: MAX_DOCUMENT_DEPTH });
    }
    if nodes >= MAX_DOCUMENT_NODES {
        proof {
            assert forall|m: ValueModel| #[trigger] decodable(m, pl, pos as int, depth as int, nodes as int) implies false by {
                lemma_count_positive(m);
            }
        }
        return Err(DocumentError::TooManyNodes { maximum: MAX_DOCUMENT_NODES });
    }
    if pos >= payload.len() {
        proof {
            assert forall|m: ValueModel| #[trigger] decodable(m, pl, pos as int, depth as int, nodes as int) implies false by {
                lemma_ser_shape(m);
            }
        }
        return Err(DocumentError::Invalid { reason: "truncated value payload" });
    }
    let tag = payload[pos];
    proof {
        assert forall|m: ValueModel| #[trigger] decodable(m, pl, pos as int, depth as int, nodes as int) implies tag == tag_of(m) by {
            lemma_ser_shape(m);
            assert(pl.subrange(pos as int, pos + ser(m).len())[0] == pl[pos as int]);
        }
    }
    if tag <= 3 {
        decode_scalar(payload, pos, depth, nodes, tag)
    } else if tag <= 5 {
        decode_run(payload, pos, depth, nodes, tag)
    } else if tag == 6 {
        decode_array(payload, pos, depth, nodes)
    } else if tag == 7 {
        decode_object(payload, pos, depth, nodes)
    } else {
        Err(DocumentError::Invalid { reason: "unknown value tag" })
    }
}

fn decode_scalar(payload: &[u8], pos: usize, depth: usize, nodes: usize, tag: u8) -> (r: Result<
    (Value, usize, usize),
    DocumentError,
>)
    requires
        tag_read(payload@, pos as int, depth as int, nodes as int, tag),
        tag <= 3,
    ensures
        decode_result_ok(payload@, pos as int, depth as int, nodes as int, r),
{
    let ghost pl = payload@;
    let after = nodes + 1;
    if tag <= 2 {
        let v = if tag == 0 {
            Value::Null
        } else {
            Value::Boolean(tag == 2)
        };
        proof {
            assert(pl.subrange(pos as int, pos + 1) =~= seq![tag]);
            assert(ser(model_of(v)) =~= seq![tag]);
            assert forall|m: ValueModel| #[trigger] decodable(m, pl, pos as int, depth as int, nodes as int) implies model_of(v) == m && pos + 1 == pos + ser(m).len() by {
                lemma_ser_shape(m);
            }
        }
        return Ok((v, pos + 1, after));
    }
    if payload.len() - pos < 9 {
        proof {
            assert forall|m: ValueModel| #[trigger] decodable(m, pl, pos as int, depth as int, nodes as int) implies false by {
                lemma_ser_shape(m);
            }
        }
        return Err(DocumentError::Invalid { reason: "truncated value payload" });
    }
    let x = read_u64_le(payload, pos + 1);
    let v = Value::Integer(x as i64);
    proof {
        lemma_le_u64_bytes(pl.subrange(pos + 1, pos + 9));
        lemma_i64_bits(x, x as i64);
        assert(pl.subrange(pos as int, pos + 9) =~= seq![3u8] + pl.subrange(pos + 1, pos + 9));
        assert(ser(model_of(v)) =~= seq![3u8] + u64_le(x));
        assert forall|m: ValueModel| #[trigger] decodable(m, pl, pos as int, depth as int, nodes as int) implies model_of(v) == m && pos + 9 == pos + ser(m).len() by {
            lemma_ser_shape(m);
            assert(pl.subrange(pos + 1, pos + 9) =~= pl.subrange(pos as int, pos + ser(m).len()).subrange(1, 9));
            if let ValueModel::Integer(n) = m {
                lemma_u64_le_round_trip((n as i64) as u64);
                lemma_i64_bits((n as i64) as u64, n as i64);
            }
        }
    }
    Ok((v, pos + 9, after))
}

fn decode_run(payload: &[u8], pos: usize, depth: usize, nodes: usize, tag: u8) -> (r: Result<
    (Value, usize, usize),
    DocumentError,
>)
    requires
        tag_read(payload@, pos as int, depth as int, nodes as int, tag),
        tag == 4 || tag == 5,
    ensures
        decode_result_ok(payload@, pos as int, depth as int, nodes as int, r),
{
    let ghost pl = payload@;
    let after = nodes + 1;
    proof {
        assert forall|m: ValueModel| #[trigger] decodable(m, pl, pos as int, depth as int, nodes as int) implies (match m {
            ValueModel::Text(b) => pos + 1 + 8 + b.len() <= pl.len() && pl.subrange(pos + 1, pos + 1 + 8 + b.len()) == u64_le(b.len() as u64) + b,
            ValueModel::Bytes(b) => pos + 1 + 8 + b.len() <= pl.len() && pl.subrange(pos + 1, pos + 1 + 8 + b.len()) == u64_le(b.len() as u64) + b,
            _ => false,
        }) by {
            lemma_ser_shape(m);
            let b = match m {
                ValueModel::Text(b) => b,
                ValueModel::Bytes(b) => b,
                _ => Seq::empty(),
            };
            assert(pl.subrange(pos + 1, pos + 9 + b.len()) =~= pl.subrange(pos as int, pos + ser(m).len()).subrange(1, 9 + b.len() as int));
            assert(ser(m).subrange(1, 9 + b.len() as int) =~= u64_le(b.len() as u64) + b);
        }
    }
    let (start, end) = match read_prefixed(payload, pos + 1) {
        Ok(range) => range,
        Err(e) => {
            proof {
                assert forall|m: ValueModel| #[trigger] decodable(m, pl, pos as int, depth as int, nodes as int) implies false by {
                    let b = match m {
                        ValueModel::Text(b) => b,
                        ValueModel::Bytes(b) => b,
                        _ => Seq::empty(),
                    };
                    assert(pl.subrange(pos + 1, pos + 1 + 8 + b.len()) == (u64_le(b.len() as u64) + b));
                }
            }
            return Err(e);
        },
    };
    let bytes = copy_range(payload, start, end);
    proof {
        assert(pl.subrange(pos as int, end as int) =~= seq![tag] + pl.subrange(pos + 1, end as int));
        assert forall|m: ValueModel| #[trigger] decodable(m, pl, pos as int, depth as int, nodes as int) implies (match m {
            ValueModel::Text(b) => bytes@ == b && valid_utf8(b) && end == pos + ser(m).len(),
            ValueModel::Bytes(b) => bytes@ == b && end == pos + ser(m).len(),
            _ => false,
        }) by {
            let b = match m {
                ValueModel::Text(b) => b,
                ValueModel::Bytes(b) => b,
                _ => Seq::empty(),
            };
            assert(pl.subrange(pos + 1, pos + 1 + 8 + b.len()) == (u64_le(b.len() as u64) + b));
        }
    }
    if tag == 5 {
        let v = Value::Bytes(bytes);
        proof {
            assert(ser(model_of(v)) =~= seq![5u8] + u64_le((end - start) as u64) + pl.subrange(start as int, end as int));
            assert(pl.subrange(pos as int, end as int) =~= ser(model_of(v)));
        }
        return Ok((v, end, after));
    }
    let text = match utf8_text(bytes.as_slice()) {
        Some(t) => t,
        None => {
            return Err(DocumentError::InvalidUtf8);
        },
    };
    let v = Value::String(text);
    proof {
        assert(ser(model_of(v)) =~= seq![4u8] + u64_le((end - start) as u64) + pl.subrange(start as int, end as int));
        assert(pl.subrange(pos as int, end as int) =~= ser(model_of(v)));
    }
    Ok((v, end, after))
}

fn decode_array(payload: &[u8], pos: usize, depth: usize, nodes: usize) -> (r: Result<
    (Value, usize, usize),
    DocumentError,
>)
    requires
        tag_read(payload@, pos as int, depth as int, nodes as int, 6u8),
    ensures
        decode_result_ok(payload@, pos as int, depth as int, nodes as int, r),
    decreases MAX_DOCUMENT_DEPTH + 2 - depth, 1nat,
{
    let ghost pl = payload@;
    let after = nodes + 1;
    if payload.len() - pos < 9 {
        proof {
            assert forall|m: ValueModel| #[trigger] decodable(m, pl, pos as int, depth as int, nodes as int) implies false by {
                lemma_ser_shape(m);
            }
        }
        return Err(DocumentError::Invalid { reason: "truncated value payload" });
    }
    proof {
        assert forall|m: ValueModel| #[trigger] decodable(m, pl, pos as int, depth as int, nodes as int) implies pl.subrange(pos + 1, pos + 9) == ser(m).subrange(1, 9) by {
            lemma_ser_shape(m);
            assert(pl.subrange(pos + 1, pos + 9) =~= pl.subrange(pos as int, pos + ser(m).len()).subrange(1, 9));
        }
        lemma_le_u64_bytes(pl.subrange(pos + 1, pos + 9));
    }
    let count = match read_length(payload, pos + 1) {
        Ok(n) => n,
        Err(e) => {
            proof {
                assert forall|m: ValueModel| #[trigger] decodable(m, pl, pos as int, depth as int, nodes as int) implies false by {
                    lemma_ser_shape(m);
                    if let ValueModel::Array(xs) = m {
                        lemma_u64_le_round_trip(xs.len() as u64);
                        lemma_count_items_len(xs);
                    }
                }
            }
            return Err(e);
        },
    };
    proof {
        assert forall|m: ValueModel| #[trigger] decodable(m, pl, pos as int, depth as int, nodes as int) implies (match m {
            ValueModel::Array(xs) => count == xs.len() && items_decodable(xs, pl, pos + 9, depth + 1, after as int),
            _ => false,
        }) by {
            lemma_ser_shape(m);
            if let ValueModel::Array(xs) = m {
                lemma_u64_le_round_trip(xs.len() as u64);
                lemma_count_items_len(xs);
                let si = ser_items(xs);
                assert(pl.subrange(pos + 9, pos + 9 + si.len()) =~= pl.subrange(pos as int, pos + ser(m).len()).subrange(9, 9 + si.len() as int));
                assert(ser(m).subrange(9, 9 + si.len() as int) =~= si);
            }
        }
    }
    if count > MAX_DOCUMENT_NODES {
        proof {
            assert forall|m: ValueModel| #[trigger] decodable(m, pl, pos as int, depth as int, nodes as int) implies false by {
                if let ValueModel::Array(xs) = m {
                    lemma_count_items_len(xs);
                }
            }
        }
        return Err(DocumentError::TooManyNodes { maximum: MAX_DOCUMENT_NODES });
    }
    let (children, end, total) = match decode_items(payload, pos + 9, count, depth, after) {
        Ok(found) => found,
        Err(e) => {
            return Err(e);
        },
    };
    let v = Value::Array(children);
    proof {
        lemma_models_of(children@);
        assert(pl.subrange(pos as int, end as int) =~= seq![6u8] + pl.subrange(pos + 1, pos + 9) + pl.subrange(pos + 9, end as int));
        assert(ser(model_of(v)) =~= seq![6u8] + u64_le(count as u64) + ser_items(models_of(children@)));
        assert(pl.subrange(pos as int, end as int) =~= ser(model_of(v)));
    }
    Ok((v, end, total))
}

fn decode_object(payload: &[u8], pos: usize, depth: usize, nodes: usize) -> (r: Result<
    (Value, usize, usize),
    DocumentError,
>)
    requires
        tag_read(payload@, pos as int, depth as int, nodes as int, 7u8),
    ensures
        decode_result_ok(payload@, pos as int, depth as int, nodes as int, r),
    decreases MAX_DOCUMENT_DEPTH + 2 - depth, 1nat,
{
    let ghost pl = payload@;
    let after = nodes + 1;
    if payload.len() - pos < 9 {
        proof {
            assert forall|m: ValueModel| #[trigger] decodable(m, pl, pos as int, depth as int, nodes as int) implies false by {
                lemma_ser_shape(m);
            }
        }
        return Err(DocumentError::Invalid { reason: "truncated value payload" });
    }
    proof {
        assert forall|m: ValueModel| #[trigger] decodable(m, pl, pos as int, depth as int, nodes as int) implies pl.subrange(pos + 1, pos + 9) == ser(m).subrange(1, 9) by {
            lemma_ser_shape(m);
            assert(pl.subrange(pos + 1, pos + 9) =~= pl.subrange(pos as int, pos + ser(m).len()).subrange(1, 9));
        }
        lemma_le_u64_bytes(pl.subrange(pos + 1, pos + 9));
    }
    let count = match read_length(payload, pos + 1) {
        Ok(n) => n,
        Err(e) => {
            proof {
                assert forall|m: ValueModel| #[trigger] decodable(m, pl, pos as int, depth as int, nodes as int) implies false by {
                    lemma_ser_shape(m);
                    if let ValueModel::Object(xs) = m {
                        lemma_u64_le_round_trip(xs.len() as u64);
                        lemma_count_entries_len(xs);
                    }
                }
            }
            return Err(e);
        },
    };
    proof {
        assert forall|m: ValueModel| #[trigger] decodable(m, pl, pos as int, depth as int, nodes as int) implies (match m {
            ValueModel::Object(xs) => count == xs.len() && entries_decodable(xs, pl, pos + 9, depth + 1, after as int),
            _ => false,
        }) by {
            lemma_ser_shape(m);
            if let ValueModel::Object(xs) = m {
                lemma_u64_le_round_trip(xs.len() as u64);
                lemma_count_entries_len(xs);
                let si = ser_entries(xs);
                assert(pl.subrange(pos + 9, pos + 9 + si.len()) =~= pl.subrange(pos as int, pos + ser(m).len()).subrange(9, 9 + si.len() as int));
                assert(ser(m).subrange(9, 9 + si.len() as int) =~= si);
                assert(crate::value::keys_strictly_sorted(xs));
                assert(representable(ValueModel::Object(xs)));
                assert forall|k: int| 0 <= k < xs.len() implies valid_utf8(#[trigger] xs[k].0) && model_canonical(xs[k].1) && representable(xs[k].1) && depth_ok(xs[k].1, depth + 1) by {
                    assert(model_canonical(xs[k].1));
                    assert(valid_utf8(xs[k].0));
                    assert(representable(xs[k].1));
                    assert(depth_ok(xs[k].1, depth + 1));
                }
            }
        }
    }
    if count > MAX_DOCUMENT_NODES {
        proof {
            assert forall|m: ValueModel| #[trigger] decodable(m, pl, pos as int, depth as int, nodes as int) implies false by {
                if let ValueModel::Object(xs) = m {
                    lemma_count_entries_len(xs);
                }
            }
        }
        return Err(DocumentError::TooManyNodes { maximum: MAX_DOCUMENT_NODES });
    }
    let (children, end, total) = match decode_entries(payload, pos + 9, count, depth, after) {
        Ok(found) => found,
        Err(e) => {
            return Err(e);
        },
    };
    let v = Value::Object(children);
    proof {
        lemma_entry_models_of(children@);
        assert(pl.subrange(pos as int, end as int) =~= seq![7u8] + pl.subrange(pos + 1, pos + 9) + pl.subrange(pos + 9, end as int));
        assert(ser(model_of(v)) =~= seq![7u8] + u64_le(count as u64) + ser_entries(entry_models_of(children@)));
        assert(pl.subrange(pos as int, end as int) =~= ser(model_of(v)));
    }
    Ok((v, end, total))
}

fn decode_items(payload: &[u8], pos: usize, count: usize, depth: usize, nodes: usize) -> (r: Result<
    (Vec<Value>, usize, usize),
    DocumentError,
>)
    requires
        pos <= payload@.len(),
        depth <= MAX_DOCUMENT_DEPTH,
        nodes <= MAX_DOCUMENT_NODES,
        count <= MAX_DOCUMENT_NODES,
    ensures
        r matches Ok((vals, end, after)) ==> ({
            let ms = models_of(vals@);
            &&& vals@.len() == count
            &&& pos <= end <= payload@.len()
            &&& payload@.subrange(pos as int, end as int) == ser_items(ms)
            &&& forall|k: int| 0 <= k < ms.len() ==> model_canonical(#[trigger] ms[k]) && depth_ok(ms[k], depth + 1)
            &&& after == nodes + count_items(ms)
            &&& after <= MAX_DOCUMENT_NODES
        }),
        forall|ms: Seq<ValueModel>|
            #[trigger] items_decodable(ms, payload@, pos as int, depth + 1, nodes as int) && ms.len() == count
                ==> (r matches Ok((vals, end, after)) && models_of(vals@) == ms && end == pos + ser_items(ms).len()),
    decreases MAX_DOCUMENT_DEPTH + 2 - depth, 0nat,
{
    let ghost pl = payload@;
    let mut vals: Vec<Value> = Vec::new();
    let mut cur = pos;
    let mut total = nodes;
    let mut i: usize = 0;
    proof {
        assert(pl.subrange(pos as int, pos as int) =~= Seq::<u8>::empty());
        assert forall|ms: Seq<ValueModel>| #[trigger] items_decodable(ms, pl, pos as int, depth + 1, nodes as int) && ms.len() == count implies models_of(vals@) == ms.subrange(0, 0) by {
            assert(ms.subrange(0, 0) =~= Seq::<ValueModel>::empty());
        }
    }
    while i < count
        invariant
            pl == payload@,
            pos <= cur <= pl.len(),
            depth <= MAX_DOCUMENT_DEPTH,
            i <= count,
            vals@.len() == i,
            pl.subrange(pos as int, cur as int) == ser_items(models_of(vals@)),
            forall|k: int| 0 <= k < i ==> model_canonical(#[trigger] models_of(vals@)[k]) && depth_ok(models_of(vals@)[k], depth + 1),
            total == nodes + count_items(models_of(vals@)),
            total <= MAX_DOCUMENT_NODES,
            forall|ms: Seq<ValueModel>|
                #[trigger] items_decodable(ms, pl, pos as int, depth + 1, nodes as int) && ms.len() == count
                    ==> models_of(vals@) == ms.subrange(0, i as int) && cur == pos + ser_items(ms.subrange(0, i as int)).len()
                    && total == nodes + count_items(ms.subrange(0, i as int)),
        decreases count - i,
    {
        proof {
            lemma_models_of(vals@);
        }
        let (v, end, after) = match decode_value(payload, cur, depth + 1, total) {
            Ok(found) => found,
            Err(e) => {
                proof {
                    assert forall|ms: Seq<ValueModel>| #[trigger] items_decodable(ms, pl, pos as int, depth + 1, nodes as int) && ms.len() == count implies false by {
                        lemma_item_decodable(ms, pl, pos as int, depth + 1, nodes as int, i as int);
                        assert(decodable(ms[i as int], pl, cur as int, depth + 1, total as int));
                    }
                }
                return Err(e);
            },
        };
        let ghost old_vals = vals@;
        vals.push(v);
        proof {
            lemma_models_of_push(old_vals, v);
            lemma_models_of(vals@);
            lemma_models_of(old_vals);
            let mv = models_of(vals@);
            assert(mv.subrange(0, mv.len() - 1) =~= models_of(old_vals));
            assert(pl.subrange(pos as int, end as int) =~= pl.subrange(pos as int, cur as int) + pl.subrange(cur as int, end as int));
            assert forall|k: int| 0 <= k < i + 1 implies model_canonical(#[trigger] mv[k]) && depth_ok(mv[k], depth + 1) by {
                if k < i {
                    assert(mv[k] == models_of(old_vals)[k]);
                }
            }
            assert forall|ms: Seq<ValueModel>| #[trigger] items_decodable(ms, pl, pos as int, depth + 1, nodes as int) && ms.len() == count implies mv == ms.subrange(0, i + 1) && end == pos + ser_items(ms.subrange(0, i + 1)).len()
                && after == nodes + count_items(ms.subrange(0, i + 1)) by {
                lemma_item_decodable(ms, pl, pos as int, depth + 1, nodes as int, i as int);
                assert(decodable(ms[i as int], pl, cur as int, depth + 1, total as int));
                assert(mv =~= ms.subrange(0, i + 1));
            }
        }
        cur = end;
        total = after;
        i = i + 1;
    }
    proof {
        lemma_models_of(vals@);
        assert forall|ms: Seq<ValueModel>| #[trigger] items_decodable(ms, pl, pos as int, depth + 1, nodes as int) && ms.len() == count implies models_of(vals@) == ms && cur == pos + ser_items(ms).len() by {
            assert(ms.subrange(0, count as int) =~= ms);
        }
    }
    Ok((vals, cur, total))
}

fn decode_entries(payload: &[u8], pos: usize, count: usize, depth: usize, nodes: usize) -> (r: Result<
    (Vec<(String, Value)>, usize, usize),
    DocumentError,
>)
    requires
        pos <= payload@.len(),
        depth <= MAX_DOCUMENT_DEPTH,
        nodes <= MAX_DOCUMENT_NODES,
        count <= MAX_DOCUMENT_NODES,
    ensures
        r matches Ok((es, end, after)) ==> ({
            let ms = entry_models_of(es@);
            &&& es@.len() == count
            &&& pos <= end <= payload@.len()
            &&& payload@.subrange(pos as int, end as int) == ser_entries(ms)
            &&& crate::value::keys_strictly_sorted(ms)
            &&& forall|k: int| 0 <= k < ms.len() ==> model_canonical(#[trigger] ms[k].1) && depth_ok(ms[k].1, depth + 1)
            &&& after == nodes + count_entries(ms)
            &&& after <= MAX_DOCUMENT_NODES
        }),
        forall|ms: Seq<(Seq<u8>, ValueModel)>|
            #[trigger] entries_decodable(ms, payload@, pos as int, depth + 1, nodes as int) && ms.len() == count
                ==> (r matches Ok((es, end, after)) && entry_models_of(es@) == ms && end == pos + ser_entries(ms).len()),
    decreases MAX_DOCUMENT_DEPTH + 2 - depth, 0nat,
{
    let ghost pl = payload@;
    let mut es: Vec<(String, Value)> = Vec::new();
    let mut previous: Vec<u8> = Vec::new();
    let mut cur = pos;
    let mut total = nodes;
    let mut i: usize = 0;
    proof {
        assert(pl.subrange(pos as int, pos as int) =~= Seq::<u8>::empty());
        assert forall|ms: Seq<(Seq<u8>, ValueModel)>| #[trigger] entries_decodable(ms, pl, pos as int, depth + 1, nodes as int) && ms.len() == count implies entry_models_of(es@) == ms.subrange(0, 0) by {
            assert(ms.subrange(0, 0) =~= Seq::<(Seq<u8>, ValueModel)>::empty());
        }
    }
    while i < count
        invariant
            pl == payload@,
            pos <= cur <= pl.len(),
            depth <= MAX_DOCUMENT_DEPTH,
            i <= count,
            es@.len() == i,
            pl.subrange(pos as int, cur as int) == ser_entries(entry_models_of(es@)),
            crate::value::keys_strictly_sorted(entry_models_of(es@)),
            i > 0 ==> previous@ == entry_models_of(es@)[i - 1].0,
            forall|k: int| 0 <= k < i ==> model_canonical(#[trigger] entry_models_of(es@)[k].1) && depth_ok(entry_models_of(es@)[k].1, depth + 1),
            total == nodes + count_entries(entry_models_of(es@)),
            total <= MAX_DOCUMENT_NODES,
            forall|ms: Seq<(Seq<u8>, ValueModel)>|
                #[trigger] entries_decodable(ms, pl, pos as int, depth + 1, nodes as int) && ms.len() == count
                    ==> entry_models_of(es@) == ms.subrange(0, i as int) && cur == pos + ser_entries(ms.subrange(0, i as int)).len()
                    && total == nodes + count_entries(ms.subrange(0, i as int)),
        decreases count - i,
    {
        let ghost em = entry_models_of(es@);
        proof {
            lemma_entry_models_of(es@);
            assert forall|ms: Seq<(Seq<u8>, ValueModel)>| #[trigger] entries_decodable(ms, pl, pos as int, depth + 1, nodes as int) && ms.len() == count implies cur + 8 + ms[i as int].0.len() <= pl.len() && pl.subrange(cur as int, cur + 8 + ms[i as int].0.len()) == u64_le(ms[i as int].0.len() as u64) + ms[i as int].0 by {
                lemma_entry_decodable(ms, pl, pos as int, depth + 1, nodes as int, i as int);
            }
        }
        let (ks, ke) = match read_prefixed(payload, cur) {
            Ok(range) => range,
            Err(e) => {
                proof {
                    assert forall|ms: Seq<(Seq<u8>, ValueModel)>| #[trigger] entries_decodable(ms, pl, pos as int, depth + 1, nodes as int) && ms.len() == count implies false by {
                        let b = ms[i as int].0;
                        assert(pl.subrange(cur as int, cur + 8 + b.len()) == (u64_le(b.len() as u64) + b));
                    }
                }
                return Err(e);
            },
        };
        let key_bytes = copy_range(payload, ks, ke);
        proof {
            assert forall|ms: Seq<(Seq<u8>, ValueModel)>| #[trigger] entries_decodable(ms, pl, pos as int, depth + 1, nodes as int) && ms.len() == count implies key_bytes@ == ms[i as int].0 && ke == cur + 8 + ms[i as int].0.len() by {
                let b = ms[i as int].0;
                assert(pl.subrange(cur as int, cur + 8 + b.len()) == (u64_le(b.len() as u64) + b));
            }
        }
        let key = match utf8_text(key_bytes.as_slice()) {
            Some(k) => k,
            None => {
                return Err(DocumentError::InvalidUtf8);
            },
        };
        if i > 0 {
            match crate::value::compare_bytes(previous.as_slice(), key_bytes.as_slice()) {
                Comparison::Less => {},
                _ => {
                    proof {
                        assert forall|ms: Seq<(Seq<u8>, ValueModel)>| #[trigger] entries_decodable(ms, pl, pos as int, depth + 1, nodes as int) && ms.len() == count implies false by {
                            assert(em == ms.subrange(0, i as int));
                            assert(em[i - 1] == ms[i - 1]);
                            assert(crate::value::bytes_order(ms[i - 1].0, ms[i as int].0) < 0);
                        }
                    }
                    return Err(DocumentError::Invalid { reason: "object keys are not strictly sorted" });
                },
            }
        }
        proof {
            assert forall|ms: Seq<(Seq<u8>, ValueModel)>| #[trigger] entries_decodable(ms, pl, pos as int, depth + 1, nodes as int) && ms.len() == count implies decodable(ms[i as int].1, pl, ke as int, depth + 1, total as int) by {
                lemma_entry_decodable(ms, pl, pos as int, depth + 1, nodes as int, i as int);
            }
        }
        let (v, end, after) = match decode_value(payload, ke, depth + 1, total) {
            Ok(found) => found,
            Err(e) => {
                proof {
                    assert forall|ms: Seq<(Seq<u8>, ValueModel)>| #[trigger] entries_decodable(ms, pl, pos as int, depth + 1, nodes as int) && ms.len() == count implies false by {
                        assert(decodable(ms[i as int].1, pl, ke as int, depth + 1, total as int));
                    }
                }
                return Err(e);
            },
        };
        let ghost old_es = es@;
        es.push((key, v));
        proof {
            lemma_entry_models_of_push(old_es, (key, v));
            lemma_entry_models_of(es@);
            let nm = entry_models_of(es@);
            let ne = (key_bytes@, model_of(v));
            assert(nm == em.push(ne));
            assert(nm.subrange(0, nm.len() - 1) =~= em);
            assert(pl.subrange(pos as int, end as int) =~= pl.subrange(pos as int, cur as int) + pl.subrange(cur as int, ke as int) + pl.subrange(ke as int, end as int));
            assert(pl.subrange(pos as int, end as int) =~= ser_entries(nm));
            assert forall|a: int, b: int| 0 <= a < b < nm.len() implies crate::value::bytes_order(#[trigger] nm[a].0, #[trigger] nm[b].0) < 0 by {
                if b == i {
                    if a < i - 1 {
                        lemma_bytes_lt_trans(nm[a].0, nm[i - 1].0, nm[b].0);
                    }
                } else {
                    assert(nm[a] == em[a] && nm[b] == em[b]);
                }
            }
            assert forall|k: int| 0 <= k < i + 1 implies model_canonical(#[trigger] nm[k].1) && depth_ok(nm[k].1, depth + 1) by {
                if k < i {
                    assert(nm[k] == em[k]);
                }
            }
            assert forall|ms: Seq<(Seq<u8>, ValueModel)>| #[trigger] entries_decodable(ms, pl, pos as int, depth + 1, nodes as int) && ms.len() == count implies nm == ms.subrange(0, i + 1) && end == pos + ser_entries(ms.subrange(0, i + 1)).len()
                && after == nodes + count_entries(ms.subrange(0, i + 1)) by {
                lemma_entry_decodable(ms, pl, pos as int, depth + 1, nodes as int, i as int);
                assert(decodable(ms[i as int].1, pl, ke as int, depth + 1, total as int));
                assert(nm =~= ms.subrange(0, i + 1));
            }
        }
        previous = key_bytes;
        cur = end;
        total = after;
        i = i + 1;
    }
    proof {
        lemma_entry_models_of(es@);
        assert forall|ms: Seq<(Seq<u8>, ValueModel)>| #[trigger] entries_decodable(ms, pl, pos as int, depth + 1, nodes as int) && ms.len() == count implies entry_models_of(es@) == ms && cur == pos + ser_entries(ms).len() by {
            assert(ms.subrange(0, count as int) =~= ms);
        }
    }
    Ok((es, cur, total))
}

proof fn lemma_bytes_lt_trans(a: Seq<u8>, b: Seq<u8>, c: Seq<u8>)
    requires
        crate::value::bytes_order(a, b) < 0,
        crate::value::bytes_order(b, c) < 0,
    ensures
        crate::value::bytes_order(a, c) < 0,
{
    crate::value::lemma_bytes_order_trans(a, b, c);
    crate::value::lemma_bytes_order_antisym(a, c);
    crate::value::lemma_bytes_order_antisym(a, b);
    crate::value::lemma_bytes_order_antisym(b, c);
}


// ---------------------------------------------------------------------------
// Verification of a whole document.

/// The header failure of encoded bytes, checked in order: length, magic,
/// version, flags, payload length, file length, checksum, digest.
pub open spec fn header_error(e: Seq<u8>) -> Option<DocumentError> {
    let length = le_u64(e.subrange(12, 20));
    let payload = e.subrange(56, e.len() as int);
    if e.len() < 56 {
        Some(DocumentError::Invalid { reason: "truncated header" })
    } else if e.subrange(0, 8) != document_magic() {
        Some(DocumentError::Invalid { reason: "bad magic" })
    } else if le_u16(e.subrange(8, 10)) != DOCUMENT_FORMAT_VERSION {
        Some(
            DocumentError::UnsupportedVersion {
                found: le_u16(e.subrange(8, 10)),
                supported: DOCUMENT_FORMAT_VERSION,
            },
        )
    } else if le_u16(e.subrange(10, 12)) != 0 {
        Some(DocumentError::Invalid { reason: "unsupported flags" })
    } else if length > usize::MAX {
        Some(DocumentError::LengthOverflow)
    } else if length > MAX_DOCUMENT_BYTES {
        Some(DocumentError::TooLarge { actual: length as usize, maximum: MAX_DOCUMENT_BYTES })
    } else if e.len() != 56 + length {
        Some(DocumentError::Invalid { reason: "file length mismatch" })
    } else if le_u32(e.subrange(20, 24)) != crc32c_append_value(
        crc32c_append_value(0, e.subrange(0, 20)),
        payload,
    ) {
        Some(DocumentError::ChecksumMismatch)
    } else if e.subrange(24, 56) != blake3_hash(e.subrange(0, 24) + payload)@ {
        Some(DocumentError::DigestMismatch)
    } else {
        None
    }
}

/// The payload is exactly the canonical payload of `m`, a value that
/// decoding accepts.
pub open spec fn payload_decodes(m: ValueModel, payload: Seq<u8>) -> bool {
    decodable(m, payload, 0, 0, 0) && ser(m).len() == payload.len()
}

/// Verifies and decodes one canonical binary document: the header checks
/// in order, then exactly the canonical payloads of canonical values within
/// the limits decode.
pub fn decode_document(encoded: &[u8]) -> (r: Result<Value, DocumentError>)
    ensures
        header_error(encoded@) matches Some(h) ==> r == Err::<Value, DocumentError>(h),
        header_error(encoded@) is None ==> ({
            let payload = encoded@.subrange(56, encoded@.len() as int);
            &&& r matches Ok(v) ==> payload == ser(model_of(v)) && model_canonical(model_of(v))
                && within_limits(model_of(v))
            &&& forall|m: ValueModel| #[trigger] payload_decodes(m, payload) ==> (r matches Ok(v)
                && model_of(v) == m)
            &&& r is Err ==> forall|m: ValueModel| !#[trigger] payload_decodes(m, payload)
        }),
{
    let ghost e = encoded@;
    if encoded.len() < 56 {
        return Err(DocumentError::Invalid { reason: "truncated header" });
    }
    if !(encoded[0] == 72 && encoded[1] == 89 && encoded[2] == 68 && encoded[3] == 79 && encoded[4]
        == 67 && encoded[5] == 48 && encoded[6] == 48 && encoded[7] == 49) {
        proof {
            if e.subrange(0, 8) == document_magic() {
                assert(e.subrange(0, 8)[0] == e[0]);
                assert(e.subrange(0, 8)[1] == e[1]);
                assert(e.subrange(0, 8)[2] == e[2]);
                assert(e.subrange(0, 8)[3] == e[3]);
                assert(e.subrange(0, 8)[4] == e[4]);
                assert(e.subrange(0, 8)[5] == e[5]);
                assert(e.subrange(0, 8)[6] == e[6]);
                assert(e.subrange(0, 8)[7] == e[7]);
            }
        }
        return Err(DocumentError::Invalid { reason: "bad magic" });
    }
    proof {
        assert(e.subrange(0, 8) =~= document_magic());
    }
    let version = read_u16_le(encoded, 8);
    if version != DOCUMENT_FORMAT_VERSION {
        return Err(DocumentError::UnsupportedVersion { found: version, supported: DOCUMENT_FORMAT_VERSION });
    }
    if read_u16_le(encoded, 10) != 0 {
        return Err(DocumentError::Invalid { reason: "unsupported flags" });
    }
    let length = read_u64_le(encoded, 12);
    if length > usize::MAX as u64 {
        return Err(DocumentError::LengthOverflow);
    }
    let payload_length = length as usize;
    if payload_length > MAX_DOCUMENT_BYTES {
        return Err(DocumentError::TooLarge { actual: payload_length, maximum: MAX_DOCUMENT_BYTES });
    }
    if encoded.len() - 56 != payload_length {
        return Err(DocumentError::Invalid { reason: "file length mismatch" });
    }
    let payload = copy_range(encoded, 56, encoded.len());
    let header20 = copy_range(encoded, 0, 20);
    let expected_checksum = read_u32_le(encoded, 20);
    let actual_checksum = crc32c_append(crc32c_append(0, header20.as_slice()), payload.as_slice());
    if actual_checksum != expected_checksum {
        return Err(DocumentError::ChecksumMismatch);
    }
    let mut digested = copy_range(encoded, 0, 24);
    extend(&mut digested, payload.as_slice());
    let digest = blake3_digest(digested.as_slice());
    let stored = copy_range(encoded, 24, 56);
    if !crate::shared::bytes_equal(&digest, stored.as_slice()) {
        return Err(DocumentError::DigestMismatch);
    }
    let (value, end, _count) = match decode_value(payload.as_slice(), 0, 0, 0) {
        Ok(found) => found,
        Err(err) => {
            return Err(err);
        },
    };
    if end != payload.len() {
        proof {
            assert forall|m: ValueModel| !#[trigger] payload_decodes(m, payload@) by {
                if payload_decodes(m, payload@) {
                    assert(decodable(m, payload@, 0, 0, 0));
                }
            }
        }
        return Err(DocumentError::Invalid { reason: "trailing payload bytes" });
    }
    proof {
        assert(payload@.subrange(0, end as int) =~= payload@);
        lemma_count_positive(model_of(value));
    }
    Ok(value)
}

/// Every string of a value is valid UTF-8 and every integer fits 64 bits.
pub proof fn lemma_value_representable(v: Value)
    ensures
        representable(model_of(v)),
    decreases v,
{
    match v {
        Value::String(s) => {
            vstd::utf8::encode_utf8_valid_utf8(s@);
        },
        Value::Array(items) => {
            lemma_models_of(items@);
            assert forall|i: int| 0 <= i < models_of(items@).len() implies representable(#[trigger] models_of(items@)[i]) by {
                lemma_value_representable(items@[i]);
            }
        },
        Value::Object(entries) => {
            lemma_entry_models_of(entries@);
            assert forall|i: int| 0 <= i < entry_models_of(entries@).len() implies valid_utf8(#[trigger] entry_models_of(entries@)[i].0) && representable(entry_models_of(entries@)[i].1) by {
                vstd::utf8::encode_utf8_valid_utf8(entries@[i].0@);
                lemma_value_representable(entries@[i].1);
            }
        },
        _ => {},
    }
}

/// Decoding the document of a value that `encode_document` accepts, a
/// canonical value within the limits, gives the value back: its envelope
/// passes every header check and its payload is exactly the value's
/// canonical payload.
pub proof fn lemma_document_round_trip(v: Value)
    requires
        model_canonical(model_of(v)),
        within_limits(model_of(v)),
    ensures
        header_error(document_envelope(ser(model_of(v)))) is None,
        document_envelope(ser(model_of(v))).subrange(
            56,
            document_envelope(ser(model_of(v))).len() as int,
        ) == ser(model_of(v)),
        payload_decodes(model_of(v), ser(model_of(v))),
{
    let m = model_of(v);
    let p = ser(m);
    let e = document_envelope(p);
    lemma_value_representable(v);
    let h20 = document_header_prefix(p.len() as u64);
    let crc = crc32c_append_value(crc32c_append_value(0, h20), p);
    let h24 = h20 + u32_le(crc);
    let d = blake3_hash(h24 + p)@;
    assert(d.len() == 32);
    assert(e == h24 + d + p);
    assert(e.subrange(0, 8) =~= document_magic());
    assert(e.subrange(8, 10) =~= u16_le(DOCUMENT_FORMAT_VERSION));
    assert(e.subrange(10, 12) =~= u16_le(0));
    assert(e.subrange(12, 20) =~= u64_le(p.len() as u64));
    assert(e.subrange(0, 20) =~= h20);
    assert(e.subrange(20, 24) =~= u32_le(crc));
    assert(e.subrange(0, 24) =~= h24);
    assert(e.subrange(24, 56) =~= d);
    assert(e.subrange(56, e.len() as int) =~= p);
    lemma_u16_le_round_trip(DOCUMENT_FORMAT_VERSION);
    lemma_u16_le_round_trip(0);
    lemma_u64_le_round_trip(p.len() as u64);
    lemma_u32_le_round_trip(crc);
    assert(p.subrange(0, p.len() as int) =~= p);
}

} // verus!
