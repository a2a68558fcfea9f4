//! Versioned chunk decoding.
//!
//! A chunk payload is a self-describing tagged binary document.  Its root
//! version tag selects one of two incompatible layouts: at or above
//! [`FLAT_SCHEMA_VERSION`] the fields sit at the document root (flat layout),
//! below it they sit wrapped inside a `Level` compound (nested layout).  Both
//! layouts decode to the same [`Chunk`] view: inhabited time, vertical
//! sections, block entities.
//!
//! The document decoder itself is the outside crate `fastnbt`; the crate's
//! own, verified logic is the version dispatch and the assembly of the view.
//! Each field read is a trusted wrapper whose result is named by an
//! uninterpreted function of the payload bytes alone, so that decoding the
//! same bytes twice — once while indexing, once while compacting — is known
//! to agree.
//!
//! The deserializer recurses once per nesting level with no depth limit, so
//! a crafted payload of nested containers could exhaust the stack.  The
//! verified pre-scan [`doc_shallow`] therefore walks the document's framing
//! — without decoding any value — and accepts only payloads of bounded size
//! whose nesting stays within [`MAX_DOC_DEPTH`]; the field wrappers require
//! it, and a payload that fails it is treated as one that does not decode,
//! which the fail-safe design preserves.

use vstd::prelude::*;

verus! {

/// Version tags at or above this decode through the flat layout.
pub const FLAT_SCHEMA_VERSION: u32 = 2825;

/// The two on-disk layout generations.
#[derive(Clone, Copy, PartialEq, Eq, Structural, Debug)]
pub enum Schema {
    Flat,
    Nested,
}

/// One fixed-footprint vertical slab of a chunk.
#[derive(Clone, Copy, PartialEq, Eq, Structural, Debug)]
pub struct Section {
    /// Vertical index of the slab.
    pub y: i8,
    /// Whether the slab carries a palette-indexed block-state table.
    pub has_block_states: bool,
}

/// Position of a block entity recorded in a chunk.
#[derive(Clone, Copy, PartialEq, Eq, Structural, Debug)]
pub struct BlockEntity {
    pub x: i32,
    pub y: i32,
    pub z: i32,
}

/// Why a chunk payload failed to decode.
#[derive(Clone, Copy, PartialEq, Eq, Structural, Debug)]
pub enum DecodeError {
    /// The payload is not a bounded, shallow, well-formed document with a
    /// root version tag.
    MissingVersion,
    /// The layout selected by the version tag is missing a required field
    /// or carries a malformed one.
    BadFields,
}

/// Version-agnostic decoded view of a chunk.
pub struct Chunk {
    /// Which layout the payload used.
    pub schema: Schema,
    /// Cumulative inhabited time of the chunk, in ticks.
    pub inhabited_time: u64,
    /// The chunk's vertical sections, in document order.
    pub sections: Vec<Section>,
    /// Positions of the chunk's block entities, in document order, for those
    /// entries that carry the three position fields.
    pub block_entities: Vec<BlockEntity>,
}

/// Deepest container nesting the decoder accepts.
pub const MAX_DOC_DEPTH: u32 = 128;

/// Largest payload size the decoder accepts, in bytes.
pub const MAX_DOC_BYTES: usize = 0x1000_0000;

/// Big-endian 16-bit value at `pos`.
pub open spec fn doc_u16(bytes: Seq<u8>, pos: int) -> u16 {
    ((bytes[pos] as u16) << 8) | (bytes[pos + 1] as u16)
}

/// Big-endian 32-bit value at `pos`.
pub open spec fn doc_u32(bytes: Seq<u8>, pos: int) -> u32 {
    ((bytes[pos] as u32) << 24) | ((bytes[pos + 1] as u32) << 16) | ((bytes[pos + 2] as u32) << 8)
        | (bytes[pos + 3] as u32)
}

/// Where the tagged value starting at `pos` ends, provided the document is
/// well-framed there and its container nesting stays below the depth bound;
/// `None` otherwise.  `fuel` only forces termination; the entry points hand
/// in more than any accepted document can consume.
pub open spec fn scan_value_spec(bytes: Seq<u8>, pos: int, tag: u8, depth: u32, fuel: nat) -> Option<
    int,
>
    decreases fuel,
{
    if fuel == 0 {
        None
    } else if tag == 1 {
        if pos + 1 <= bytes.len() {
            Some(pos + 1)
        } else {
            None
        }
    } else if tag == 2 {
        if pos + 2 <= bytes.len() {
            Some(pos + 2)
        } else {
            None
        }
    } else if tag == 3 || tag == 5 {
        if pos + 4 <= bytes.len() {
            Some(pos + 4)
        } else {
            None
        }
    } else if tag == 4 || tag == 6 {
        if pos + 8 <= bytes.len() {
            Some(pos + 8)
        } else {
            None
        }
    } else if tag == 7 || tag == 11 || tag == 12 {
        if pos + 4 <= bytes.len() {
            let n = doc_u32(bytes, pos);
            let w: int = if tag == 7 {
                1
            } else if tag == 11 {
                4
            } else {
                8
            };
            if n < 0x8000_0000u32 && pos + 4 + n * w <= bytes.len() {
                Some(pos + 4 + n * w)
            } else {
                None
            }
        } else {
            None
        }
    } else if tag == 8 {
        if pos + 2 <= bytes.len() && pos + 2 + doc_u16(bytes, pos) <= bytes.len() {
            Some(pos + 2 + doc_u16(bytes, pos))
        } else {
            None
        }
    } else if tag == 9 {
        if depth < MAX_DOC_DEPTH && pos + 5 <= bytes.len() {
            let n = doc_u32(bytes, pos + 1);
            if n < 0x8000_0000u32 {
                scan_list_spec(
                    bytes,
                    pos + 5,
                    bytes[pos],
                    n as int,
                    (depth + 1) as u32,
                    (fuel - 1) as nat,
                )
            } else {
                None
            }
        } else {
            None
        }
    } else if tag == 10 {
        if depth < MAX_DOC_DEPTH {
            scan_compound_spec(bytes, pos, (depth + 1) as u32, (fuel - 1) as nat)
        } else {
            None
        }
    } else {
        None
    }
}

/// Where a run of `n` list elements of type `etag` starting at `pos` ends.
pub open spec fn scan_list_spec(
    bytes: Seq<u8>,
    pos: int,
    etag: u8,
    n: int,
    depth: u32,
    fuel: nat,
) -> Option<int>
    decreases fuel,
{
    if fuel == 0 {
        None
    } else if n <= 0 {
        Some(pos)
    } else {
        match scan_value_spec(bytes, pos, etag, depth, (fuel - 1) as nat) {
            None => None,
            Some(p) => scan_list_spec(bytes, p, etag, n - 1, depth, (fuel - 1) as nat),
        }
    }
}

/// Where the run of named entries of a compound body starting at `pos`
/// ends (one byte past its closing end tag).
pub open spec fn scan_compound_spec(bytes: Seq<u8>, pos: int, depth: u32, fuel: nat) -> Option<int>
    decreases fuel,
{
    if fuel == 0 {
        None
    } else if !(0 <= pos && pos + 1 <= bytes.len()) {
        None
    } else if bytes[pos] == 0 {
        Some(pos + 1)
    } else if pos + 3 <= bytes.len() && pos + 3 + doc_u16(bytes, pos + 1) <= bytes.len() {
        match scan_value_spec(
            bytes,
            pos + 3 + doc_u16(bytes, pos + 1),
            bytes[pos],
            depth,
            (fuel - 1) as nat,
        ) {
            None => None,
            Some(p) => scan_compound_spec(bytes, p, depth, (fuel - 1) as nat),
        }
    } else {
        None
    }
}

/// A payload the decoder may be handed: bounded in size, rooted in a named
/// compound, well-framed, and nested no deeper than [`MAX_DOC_DEPTH`].
pub open spec fn doc_shallow_spec(bytes: Seq<u8>) -> bool {
    &&& 3 <= bytes.len() <= MAX_DOC_BYTES
    &&& bytes[0] == 10
    &&& 3 + doc_u16(bytes, 1) <= bytes.len()
    &&& scan_compound_spec(bytes, 3 + doc_u16(bytes, 1), 1, (4 * bytes.len() + 16) as nat) is Some
}

/// Exec twin of [`scan_value_spec`].
fn scan_value(data: &[u8], pos: usize, tag: u8, depth: u32, fuel: u64) -> (r: Option<usize>)
    requires
        pos <= data@.len(),
        data@.len() <= MAX_DOC_BYTES,
    ensures
        ({
            let s = scan_value_spec(data@, pos as int, tag, depth, fuel as nat);
            match r {
                None => s is None,
                Some(p) => s == Some(p as int) && p <= data@.len(),
            }
        }),
    decreases fuel,
{
    if fuel == 0 {
        return None;
    }
    let len = data.len();
    if tag == 1 {
        if pos + 1 <= len {
            Some(pos + 1)
        } else {
            None
        }
    } else if tag == 2 {
        if pos + 2 <= len {
            Some(pos + 2)
        } else {
            None
        }
    } else if tag == 3 || tag == 5 {
        if pos + 4 <= len {
            Some(pos + 4)
        } else {
            None
        }
    } else if tag == 4 || tag == 6 {
        if pos + 8 <= len {
            Some(pos + 8)
        } else {
            None
        }
    } else if tag == 7 || tag == 11 || tag == 12 {
        if pos + 4 <= len {
            let n = ((data[pos] as u32) << 24) | ((data[pos + 1] as u32) << 16) | ((data[pos + 2]
                as u32) << 8) | (data[pos + 3] as u32);
            assert(n == doc_u32(data@, pos as int));
            let w: u64 = if tag == 7 {
                1
            } else if tag == 11 {
                4
            } else {
                8
            };
            let end: u64 = pos as u64 + 4 + (n as u64) * w;
            if n < 0x8000_0000 && end <= len as u64 {
                Some(end as usize)
            } else {
                None
            }
        } else {
            None
        }
    } else if tag == 8 {
        if pos + 2 <= len {
            let n = ((data[pos] as u16) << 8) | (data[pos + 1] as u16);
            assert(n == doc_u16(data@, pos as int));
            if pos + 2 + n as usize <= len {
                Some(pos + 2 + n as usize)
            } else {
                None
            }
        } else {
            None
        }
    } else if tag == 9 {
        if depth < MAX_DOC_DEPTH && pos + 5 <= len {
            let n = ((data[pos + 1] as u32) << 24) | ((data[pos + 2] as u32) << 16) | ((data[pos
                + 3] as u32) << 8) | (data[pos + 4] as u32);
            assert(n == doc_u32(data@, pos as int + 1));
            if n < 0x8000_0000 {
                scan_list(data, pos + 5, data[pos], n as usize, depth + 1, fuel - 1)
            } else {
                None
            }
        } else {
            None
        }
    } else if tag == 10 {
        if depth < MAX_DOC_DEPTH {
            scan_compound(data, pos, depth + 1, fuel - 1)
        } else {
            None
        }
    } else {
        None
    }
}

/// Exec twin of [`scan_list_spec`].
fn scan_list(data: &[u8], pos: usize, etag: u8, n: usize, depth: u32, fuel: u64) -> (r: Option<
    usize,
>)
    requires
        pos <= data@.len(),
        data@.len() <= MAX_DOC_BYTES,
    ensures
        ({
            let s = scan_list_spec(data@, pos as int, etag, n as int, depth, fuel as nat);
            match r {
                None => s is None,
                Some(p) => s == Some(p as int) && p <= data@.len(),
            }
        }),
    decreases fuel,
{
    if fuel == 0 {
        return None;
    }
    if n == 0 {
        return Some(pos);
    }
    match scan_value(data, pos, etag, depth, fuel - 1) {
        None => None,
        Some(p) => scan_list(data, p, etag, n - 1, depth, fuel - 1),
    }
}

/// Exec twin of [`scan_compound_spec`].
fn scan_compound(data: &[u8], pos: usize, depth: u32, fuel: u64) -> (r: Option<usize>)
    requires
        pos <= data@.len(),
        data@.len() <= MAX_DOC_BYTES,
    ensures
        ({
            let s = scan_compound_spec(data@, pos as int, depth, fuel as nat);
            match r {
                None => s is None,
                Some(p) => s == Some(p as int) && p <= data@.len(),
            }
        }),
    decreases fuel,
{
    if fuel == 0 {
        return None;
    }
    let len = data.len();
    if pos + 1 > len {
        return None;
    }
    if data[pos] == 0 {
        return Some(pos + 1);
    }
    if pos + 3 > len {
        return None;
    }
    let n = ((data[pos + 1] as u16) << 8) | (data[pos + 2] as u16);
    assert(n == doc_u16(data@, pos as int + 1));
    if pos + 3 + n as usize > len {
        return None;
    }
    match scan_value(data, pos + 3 + n as usize, data[pos], depth, fuel - 1) {
        None => None,
        Some(p) => scan_compound(data, p, depth, fuel - 1),
    }
}

/// Decides [`doc_shallow_spec`]: walks the document's framing without
/// decoding any value, and accepts only payloads whose container nesting
/// stays within the depth bound.  The walk itself refuses to descend past
/// the bound, so it runs in bounded stack space on any input.
pub fn doc_shallow(input: &[u8]) -> (b: bool)
    ensures
        b == doc_shallow_spec(input@),
{
    if input.len() < 3 || input.len() > MAX_DOC_BYTES {
        return false;
    }
    if input[0] != 10 {
        return false;
    }
    let n = ((input[1] as u16) << 8) | (input[2] as u16);
    assert(n == doc_u16(input@, 1));
    let start = 3 + n as usize;
    if start > input.len() {
        return false;
    }
    let fuel: u64 = 4 * (input.len() as u64) + 16;
    match scan_compound(input, start, 1, fuel) {
        Some(_) => true,
        None => false,
    }
}

/// Root version tag of the payload, if the payload is a well-formed document
/// carrying one.
pub uninterp spec fn doc_version(bytes: Seq<u8>) -> Option<u32>;

/// Inhabited time at the root of a flat-layout payload.
pub uninterp spec fn flat_inhabited(bytes: Seq<u8>) -> Option<u64>;

/// Number of sections of a flat-layout payload.
pub uninterp spec fn flat_section_count(bytes: Seq<u8>) -> Option<usize>;

/// Vertical index and block-state-table presence of section `i` of a
/// flat-layout payload; `None` also when the entry's table is present but
/// malformed.
pub uninterp spec fn flat_section_at(bytes: Seq<u8>, i: usize) -> Option<(i8, bool)>;

/// Number of block-entity entries of a flat-layout payload; zero when the
/// list is absent.
pub uninterp spec fn flat_entity_count(bytes: Seq<u8>) -> Option<usize>;

/// Position fields of block-entity entry `i` of a flat-layout payload.
pub uninterp spec fn flat_entity_at(bytes: Seq<u8>, i: usize) -> Option<(i32, i32, i32)>;

/// Inhabited time inside the `Level` wrapper of a nested-layout payload.
pub uninterp spec fn nested_inhabited(bytes: Seq<u8>) -> Option<u64>;

/// Number of sections of a nested-layout payload.
pub uninterp spec fn nested_section_count(bytes: Seq<u8>) -> Option<usize>;

/// Vertical index and block-state-table presence of section `i` of a
/// nested-layout payload; `None` also when the entry's table is present but
/// malformed.
pub uninterp spec fn nested_section_at(bytes: Seq<u8>, i: usize) -> Option<(i8, bool)>;

/// Number of block-entity entries of a nested-layout payload; zero when the
/// list is absent.
pub uninterp spec fn nested_entity_count(bytes: Seq<u8>) -> Option<usize>;

/// Position fields of block-entity entry `i` of a nested-layout payload.
pub uninterp spec fn nested_entity_at(bytes: Seq<u8>, i: usize) -> Option<(i32, i32, i32)>;

/// Relies on fastnbt::from_bytes: reads the root `DataVersion` integer of the
/// document.  Deterministic in the payload bytes.
#[verifier::external_body]
fn nbt_doc_version(input: &[u8]) -> (r: Option<u32>)
    requires
        doc_shallow_spec(input@),
    ensures
        r == doc_version(input@),
{
    let v: fastnbt::Value = fastnbt::from_bytes(input).ok()?;
    let fastnbt::Value::Compound(m) = v else { return None };
    let Some(fastnbt::Value::Int(dv)) = m.get("DataVersion") else { return None };
    u32::try_from(*dv).ok()
}

/// Relies on fastnbt::from_bytes: reads the root `InhabitedTime` of a
/// flat-layout document.  Deterministic in the payload bytes.
#[verifier::external_body]
fn nbt_flat_inhabited(input: &[u8]) -> (r: Option<u64>)
    requires
        doc_shallow_spec(input@),
    ensures
        r == flat_inhabited(input@),
{
    let v: fastnbt::Value = fastnbt::from_bytes(input).ok()?;
    let fastnbt::Value::Compound(m) = v else { return None };
    let Some(fastnbt::Value::Long(t)) = m.get("InhabitedTime") else { return None };
    u64::try_from(*t).ok()
}

/// Relies on fastnbt::from_bytes: reads the length of the root `sections`
/// list of a flat-layout document.  Deterministic in the payload bytes.
#[verifier::external_body]
fn nbt_flat_section_count(input: &[u8]) -> (r: Option<usize>)
    requires
        doc_shallow_spec(input@),
    ensures
        r == flat_section_count(input@),
{
    let v: fastnbt::Value = fastnbt::from_bytes(input).ok()?;
    let fastnbt::Value::Compound(m) = v else { return None };
    let Some(fastnbt::Value::List(l)) = m.get("sections") else { return None };
    Some(l.len())
}

/// Relies on fastnbt::from_bytes and fastnbt::from_value: reads the `Y`
/// index of entry `i` of the root `sections` list of a flat-layout
/// document, and whether the entry carries a `block_states` table that
/// parses as fastanvil's palette-indexed table type; a table that is
/// present but malformed makes the entry malformed.  Deterministic in the
/// payload bytes and the index.
#[verifier::external_body]
fn nbt_flat_section_at(input: &[u8], i: usize) -> (r: Option<(i8, bool)>)
    requires
        doc_shallow_spec(input@),
    ensures
        r == flat_section_at(input@, i),
{
    let v: fastnbt::Value = fastnbt::from_bytes(input).ok()?;
    let fastnbt::Value::Compound(m) = v else { return None };
    let Some(fastnbt::Value::List(l)) = m.get("sections") else { return None };
    let Some(fastnbt::Value::Compound(s)) = l.get(i) else { return None };
    let Some(fastnbt::Value::Byte(y)) = s.get("Y") else { return None };
    let has = match s.get("block_states") {
        None => false,
        Some(t) => match fastnbt::from_value::<fastanvil::BlockData<fastanvil::Block>>(t) {
            Ok(_) => true,
            Err(_) => return None,
        },
    };
    Some((*y, has))
}

/// Relies on fastnbt::from_bytes: reads the length of the root
/// `block_entities` list of a flat-layout document, zero when absent.
/// Deterministic in the payload bytes.
#[verifier::external_body]
fn nbt_flat_entity_count(input: &[u8]) -> (r: Option<usize>)
    requires
        doc_shallow_spec(input@),
    ensures
        r == flat_entity_count(input@),
{
    let v: fastnbt::Value = fastnbt::from_bytes(input).ok()?;
    let fastnbt::Value::Compound(m) = v else { return None };
    match m.get("block_entities") {
        None => Some(0),
        Some(fastnbt::Value::List(l)) => Some(l.len()),
        Some(_) => None,
    }
}

/// Relies on fastnbt::from_bytes: reads the `x`, `y`, `z` fields of entry
/// `i` of the root `block_entities` list of a flat-layout document.
/// Deterministic in the payload bytes and the index.
#[verifier::external_body]
fn nbt_flat_entity_at(input: &[u8], i: usize) -> (r: Option<(i32, i32, i32)>)
    requires
        doc_shallow_spec(input@),
    ensures
        r == flat_entity_at(input@, i),
{
    let v: fastnbt::Value = fastnbt::from_bytes(input).ok()?;
    let fastnbt::Value::Compound(m) = v else { return None };
    let Some(fastnbt::Value::List(l)) = m.get("block_entities") else { return None };
    let Some(fastnbt::Value::Compound(e)) = l.get(i) else { return None };
    let Some(fastnbt::Value::Int(x)) = e.get("x") else { return None };
    let Some(fastnbt::Value::Int(y)) = e.get("y") else { return None };
    let Some(fastnbt::Value::Int(z)) = e.get("z") else { return None };
    Some((*x, *y, *z))
}

/// Relies on fastnbt::from_bytes: reads `InhabitedTime` inside the `Level`
/// wrapper of a nested-layout document.  Deterministic in the payload bytes.
#[verifier::external_body]
fn nbt_nested_inhabited(input: &[u8]) -> (r: Option<u64>)
    requires
        doc_shallow_spec(input@),
    ensures
        r == nested_inhabited(input@),
{
    let v: fastnbt::Value = fastnbt::from_bytes(input).ok()?;
    let fastnbt::Value::Compound(m) = v else { return None };
    let Some(fastnbt::Value::Compound(lvl)) = m.get("Level") else { return None };
    let Some(fastnbt::Value::Long(t)) = lvl.get("InhabitedTime") else { return None };
    u64::try_from(*t).ok()
}

/// Relies on fastnbt::from_bytes: reads the length of the `Sections` list
/// inside the `Level` wrapper of a nested-layout document.  Deterministic in
/// the payload bytes.
#[verifier::external_body]
fn nbt_nested_section_count(input: &[u8]) -> (r: Option<usize>)
    requires
        doc_shallow_spec(input@),
    ensures
        r == nested_section_count(input@),
{
    let v: fastnbt::Value = fastnbt::from_bytes(input).ok()?;
    let fastnbt::Value::Compound(m) = v else { return None };
    let Some(fastnbt::Value::Compound(lvl)) = m.get("Level") else { return None };
    let Some(fastnbt::Value::List(l)) = lvl.get("Sections") else { return None };
    Some(l.len())
}

/// Relies on fastnbt::from_bytes and fastnbt::from_value: reads the `Y`
/// index of entry `i` of the `Sections` list inside the `Level` wrapper,
/// and whether the entry carries a `block_states` table that parses as
/// fastanvil's palette-indexed table type; a table that is present but
/// malformed makes the entry malformed.  Deterministic in the payload
/// bytes and the index.
#[verifier::external_body]
fn nbt_nested_section_at(input: &[u8], i: usize) -> (r: Option<(i8, bool)>)
    requires
        doc_shallow_spec(input@),
    ensures
        r == nested_section_at(input@, i),
{
    let v: fastnbt::Value = fastnbt::from_bytes(input).ok()?;
    let fastnbt::Value::Compound(m) = v else { return None };
    let Some(fastnbt::Value::Compound(lvl)) = m.get("Level") else { return None };
    let Some(fastnbt::Value::List(l)) = lvl.get("Sections") else { return None };
    let Some(fastnbt::Value::Compound(s)) = l.get(i) else { return None };
    let Some(fastnbt::Value::Byte(y)) = s.get("Y") else { return None };
    let has = match s.get("block_states") {
        None => false,
        Some(t) => match fastnbt::from_value::<fastanvil::BlockData<fastanvil::Block>>(t) {
            Ok(_) => true,
            Err(_) => return None,
        },
    };
    Some((*y, has))
}

/// Relies on fastnbt::from_bytes: reads the length of the `BlockEntities`
/// list inside the `Level` wrapper, zero when absent.  Deterministic in the
/// payload bytes.
#[verifier::external_body]
fn nbt_nested_entity_count(input: &[u8]) -> (r: Option<usize>)
    requires
        doc_shallow_spec(input@),
    ensures
        r == nested_entity_count(input@),
{
    let v: fastnbt::Value = fastnbt::from_bytes(input).ok()?;
    let fastnbt::Value::Compound(m) = v else { return None };
    let Some(fastnbt::Value::Compound(lvl)) = m.get("Level") else { return None };
    match lvl.get("BlockEntities") {
        None => Some(0),
        Some(fastnbt::Value::List(l)) => Some(l.len()),
        Some(_) => None,
    }
}

/// Relies on fastnbt::from_bytes: reads the `x`, `y`, `z` fields of entry
/// `i` of the `BlockEntities` list inside the `Level` wrapper.
/// Deterministic in the payload bytes and the index.
#[verifier::external_body]
fn nbt_nested_entity_at(input: &[u8], i: usize) -> (r: Option<(i32, i32, i32)>)
    requires
        doc_shallow_spec(input@),
    ensures
        r == nested_entity_at(input@, i),
{
    let v: fastnbt::Value = fastnbt::from_bytes(input).ok()?;
    let fastnbt::Value::Compound(m) = v else { return None };
    let Some(fastnbt::Value::Compound(lvl)) = m.get("Level") else { return None };
    let Some(fastnbt::Value::List(l)) = lvl.get("BlockEntities") else { return None };
    let Some(fastnbt::Value::Compound(e)) = l.get(i) else { return None };
    let Some(fastnbt::Value::Int(x)) = e.get("x") else { return None };
    let Some(fastnbt::Value::Int(y)) = e.get("y") else { return None };
    let Some(fastnbt::Value::Int(z)) = e.get("z") else { return None };
    Some((*x, *y, *z))
}

/// The layout a version tag selects.
pub open spec fn schema_of(v: u32) -> Schema {
    if v >= FLAT_SCHEMA_VERSION {
        Schema::Flat
    } else {
        Schema::Nested
    }
}

/// Inhabited time of the payload under the given layout.
pub open spec fn spec_inhabited(bytes: Seq<u8>, sch: Schema) -> Option<u64> {
    if sch is Flat {
        flat_inhabited(bytes)
    } else {
        nested_inhabited(bytes)
    }
}

/// Section count of the payload under the given layout.
pub open spec fn spec_section_count(bytes: Seq<u8>, sch: Schema) -> Option<usize> {
    if sch is Flat {
        flat_section_count(bytes)
    } else {
        nested_section_count(bytes)
    }
}

/// Section entry of the payload under the given layout.
pub open spec fn spec_section_at(bytes: Seq<u8>, sch: Schema, i: usize) -> Option<(i8, bool)> {
    if sch is Flat {
        flat_section_at(bytes, i)
    } else {
        nested_section_at(bytes, i)
    }
}

/// Block-entity count of the payload under the given layout.
pub open spec fn spec_entity_count(bytes: Seq<u8>, sch: Schema) -> Option<usize> {
    if sch is Flat {
        flat_entity_count(bytes)
    } else {
        nested_entity_count(bytes)
    }
}

/// Block-entity entry of the payload under the given layout.
pub open spec fn spec_entity_at(bytes: Seq<u8>, sch: Schema, i: usize) -> Option<(i32, i32, i32)> {
    if sch is Flat {
        flat_entity_at(bytes, i)
    } else {
        nested_entity_at(bytes, i)
    }
}

/// Whether the payload decodes: it is a bounded, shallow document carrying
/// a version tag, and the layout the tag selects provides the inhabited
/// time, a well-formed section list, and a well-formed (possibly absent)
/// block-entity list.
pub open spec fn decode_ok(bytes: Seq<u8>) -> bool {
    &&& doc_shallow_spec(bytes)
    &&& doc_version(bytes) is Some
    &&& {
        let sch = schema_of(doc_version(bytes)->Some_0);
        &&& spec_inhabited(bytes, sch) is Some
        &&& spec_section_count(bytes, sch) is Some
        &&& forall|i: usize|
            i < spec_section_count(bytes, sch)->Some_0 ==> spec_section_at(bytes, sch, i) is Some
        &&& spec_entity_count(bytes, sch) is Some
    }
}

/// Inhabited time of a payload that decodes.
pub open spec fn decoded_inhabited(bytes: Seq<u8>) -> u64 {
    spec_inhabited(bytes, schema_of(doc_version(bytes)->Some_0))->Some_0
}

/// Section view of a payload that decodes.
pub open spec fn decoded_sections(bytes: Seq<u8>) -> Seq<Section> {
    let sch = schema_of(doc_version(bytes)->Some_0);
    Seq::new(
        spec_section_count(bytes, sch)->Some_0 as nat,
        |i: int|
            Section {
                y: spec_section_at(bytes, sch, i as usize)->Some_0.0,
                has_block_states: spec_section_at(bytes, sch, i as usize)->Some_0.1,
            },
    )
}

/// Block-entity view of the first `n` list entries: entries carrying the
/// three position fields, in order; entries without them are skipped.
pub open spec fn spec_entities_prefix(bytes: Seq<u8>, sch: Schema, n: nat) -> Seq<BlockEntity>
    decreases n,
{
    if n == 0 {
        Seq::empty()
    } else {
        let rest = spec_entities_prefix(bytes, sch, (n - 1) as nat);
        match spec_entity_at(bytes, sch, (n - 1) as usize) {
            Some(p) => rest.push(BlockEntity { x: p.0, y: p.1, z: p.2 }),
            None => rest,
        }
    }
}

/// Block-entity view of a payload that decodes.
pub open spec fn decoded_entities(bytes: Seq<u8>) -> Seq<BlockEntity> {
    let sch = schema_of(doc_version(bytes)->Some_0);
    spec_entities_prefix(bytes, sch, spec_entity_count(bytes, sch)->Some_0 as nat)
}

/// Decodes a chunk payload into the version-agnostic view, dispatching on the
/// embedded version tag.  Fails with [`DecodeError::MissingVersion`] exactly
/// when the payload has no readable version tag, and with
/// [`DecodeError::BadFields`] exactly when the layout the tag selects does
/// not provide the required fields.
#[verifier::loop_isolation(false)]
pub fn load_chunk(input: &[u8]) -> (r: Result<Chunk, DecodeError>)
    ensures
        r is Ok <==> decode_ok(input@),
        r matches Ok(c) ==> {
            &&& c.schema == schema_of(doc_version(input@)->Some_0)
            &&& c.inhabited_time == decoded_inhabited(input@)
            &&& c.sections@ == decoded_sections(input@)
            &&& c.block_entities@ == decoded_entities(input@)
        },
        r matches Err(e) ==> (e is MissingVersion <==> (!doc_shallow_spec(input@) || doc_version(
            input@,
        ) is None)),
{
    if !doc_shallow(input) {
        return Err(DecodeError::MissingVersion);
    }
    let Some(version) = nbt_doc_version(input) else {
        return Err(DecodeError::MissingVersion);
    };
    let flat = version >= FLAT_SCHEMA_VERSION;
    let ghost sch = schema_of(version);

    let inhabited = if flat {
        nbt_flat_inhabited(input)
    } else {
        nbt_nested_inhabited(input)
    };
    let Some(inhabited_time) = inhabited else { return Err(DecodeError::BadFields) };

    let scount = if flat {
        nbt_flat_section_count(input)
    } else {
        nbt_nested_section_count(input)
    };
    let Some(ns) = scount else { return Err(DecodeError::BadFields) };

    let mut sections: Vec<Section> = Vec::new();
    let mut i: usize = 0;
    while i < ns
        invariant
            i <= ns,
            sch == schema_of(version),
            flat == (sch is Flat),
            Some(ns) == spec_section_count(input@, sch),
            forall|k: usize| k < i ==> spec_section_at(input@, sch, k) is Some,
            sections@ =~= decoded_sections(input@).take(i as int) || !decode_ok(input@),
            sections@.len() == i,
            forall|k: int|
                0 <= k < i ==> #[trigger] sections@[k] == (Section {
                    y: spec_section_at(input@, sch, k as usize)->Some_0.0,
                    has_block_states: spec_section_at(input@, sch, k as usize)->Some_0.1,
                }),
        decreases ns - i,
    {
        let sa = if flat {
            nbt_flat_section_at(input, i)
        } else {
            nbt_nested_section_at(input, i)
        };
        let s = match sa {
            Some(s) => s,
            None => {
                proof {
                    assert(spec_section_at(input@, sch, i) is None);
                }
                return Err(DecodeError::BadFields);
            },
        };
        sections.push(Section { y: s.0, has_block_states: s.1 });
        i = i + 1;
    }

    let ecount = if flat {
        nbt_flat_entity_count(input)
    } else {
        nbt_nested_entity_count(input)
    };
    let Some(ne) = ecount else { return Err(DecodeError::BadFields) };

    let mut block_entities: Vec<BlockEntity> = Vec::new();
    let mut j: usize = 0;
    while j < ne
        invariant
            j <= ne,
            sch == schema_of(version),
            flat == (sch is Flat),
            block_entities@ == spec_entities_prefix(input@, sch, j as nat),
        decreases ne - j,
    {
        let ea = if flat {
            nbt_flat_entity_at(input, j)
        } else {
            nbt_nested_entity_at(input, j)
        };
        if let Some(p) = ea {
            block_entities.push(BlockEntity { x: p.0, y: p.1, z: p.2 });
        }
        j = j + 1;
    }

    let schema = if flat {
        Schema::Flat
    } else {
        Schema::Nested
    };
    proof {
        assert(decode_ok(input@));
        assert(sections@ =~= decoded_sections(input@));
    }
    Ok(Chunk { schema, inhabited_time, sections, block_entities })
}

impl Chunk {
    /// Cumulative inhabited time of the chunk, in ticks.
    pub fn inhabited_time(&self) -> (t: u64)
        ensures
            t == self.inhabited_time,
    {
        self.inhabited_time
    }

    /// The chunk's vertical sections.
    pub fn sections(&self) -> (s: &Vec<Section>)
        ensures
            s == &self.sections,
    {
        &self.sections
    }

    /// Positions of the chunk's block entities.
    pub fn block_entities(&self) -> (e: &Vec<BlockEntity>)
        ensures
            e == &self.block_entities,
    {
        &self.block_entities
    }
}

} // verus!
