//! Coordinate arithmetic across the three nested addressing levels: region
//! container (32×32 chunks), chunk (16×16 blocks horizontally), block.
//!
//! Every container-level computation in the crate re-derives world chunk
//! coordinates through [`chunk_coord`], so indexing and compaction cannot
//! disagree about where a chunk lives.

use vstd::prelude::*;

verus! {

/// Chunks per region edge.
pub const REGION_CHUNKS: i32 = 32;

/// Blocks per chunk edge.
pub const CHUNK_BLOCKS: i32 = 16;

/// Smallest region coordinate whose chunks still fit in `i32`.
pub const REGION_COORD_MIN: i32 = -67108864;

/// Largest region coordinate whose chunks still fit in `i32`.
pub const REGION_COORD_MAX: i32 = 67108863;

/// Smallest chunk coordinate whose blocks still fit in `i32`.
pub const CHUNK_COORD_MIN: i32 = -134217728;

/// Largest chunk coordinate whose blocks still fit in `i32`.
pub const CHUNK_COORD_MAX: i32 = 134217727;

/// Smallest region coordinate whose blocks still fit in `i32`.
pub const REGION_BLOCK_MIN: i32 = -4194304;

/// Largest region coordinate whose blocks still fit in `i32`.
pub const REGION_BLOCK_MAX: i32 = 4194303;

/// Whether a region coordinate pair is small enough that every chunk
/// coordinate derived from it fits in `i32`.
pub open spec fn region_coord_in_range(rx: i32, rz: i32) -> bool {
    REGION_COORD_MIN <= rx <= REGION_COORD_MAX && REGION_COORD_MIN <= rz <= REGION_COORD_MAX
}

/// World chunk coordinate of the chunk at local offset `(lx, lz)` inside
/// region `(rx, rz)`: region coordinate times 32 plus the local offset.
pub fn chunk_coord(rx: i32, rz: i32, lx: usize, lz: usize) -> (c: (i32, i32))
    requires
        region_coord_in_range(rx, rz),
        lx < 32,
        lz < 32,
    ensures
        c.0 == rx * 32 + lx,
        c.1 == rz * 32 + lz,
{
    (rx * 32 + lx as i32, rz * 32 + lz as i32)
}

/// The inclusive block-coordinate rectangle covered by chunk `(cx, cz)`:
/// low corner `(cx·16, cz·16)`, high corner `(cx·16 + 15, cz·16 + 15)`.
pub fn chunk_block_range(cx: i32, cz: i32) -> (r: ((i32, i32), (i32, i32)))
    requires
        CHUNK_COORD_MIN <= cx <= CHUNK_COORD_MAX,
        CHUNK_COORD_MIN <= cz <= CHUNK_COORD_MAX,
    ensures
        r.0.0 == cx * 16 && r.0.1 == cz * 16,
        r.1.0 == cx * 16 + 15 && r.1.1 == cz * 16 + 15,
{
    ((cx * 16, cz * 16), (cx * 16 + 15, cz * 16 + 15))
}

/// The inclusive block-coordinate rectangle covered by region `(rx, rz)`:
/// low corner `(rx·512, rz·512)`, high corner `(rx·512 + 511, rz·512 + 511)`.
pub fn region_block_range(rx: i32, rz: i32) -> (r: ((i32, i32), (i32, i32)))
    requires
        REGION_BLOCK_MIN <= rx <= REGION_BLOCK_MAX,
        REGION_BLOCK_MIN <= rz <= REGION_BLOCK_MAX,
    ensures
        r.0.0 == rx * 512 && r.0.1 == rz * 512,
        r.1.0 == rx * 512 + 511 && r.1.1 == rz * 512 + 511,
{
    ((rx * 512, rz * 512), (rx * 512 + 511, rz * 512 + 511))
}

/// World block position of entry `i` of a section's block-state table, for
/// the section at vertical index `sy` of chunk `(cx, cz)`.  Entries are laid
/// out x-fastest, then z, then y: the low nibble of `i` is the x offset, the
/// next nibble the z offset, the third nibble the y offset.
pub fn block_pos_in_section(cx: i32, cz: i32, sy: i8, i: usize) -> (p: (i32, i32, i32))
    requires
        CHUNK_COORD_MIN <= cx <= CHUNK_COORD_MAX,
        CHUNK_COORD_MIN <= cz <= CHUNK_COORD_MAX,
        i < 4096,
    ensures
        p.0 == cx * 16 + (i % 16),
        p.1 == sy * 16 + ((i / 256) % 16),
        p.2 == cz * 16 + ((i / 16) % 16),
{
    let ux = (i % 16) as i32;
    let uy = ((i / 256) % 16) as i32;
    let uz = ((i / 16) % 16) as i32;
    (cx * 16 + ux, (sy as i32) * 16 + uy, cz * 16 + uz)
}

} // verus!
