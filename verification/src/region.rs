//! Trusted interface to the container codec (the outside crate `fastanvil`).
//!
//! A container file holds up to 1024 chunks on a 32×32 grid.  The codec is
//! used purely in memory: the caller hands the file's bytes in, and receives
//! rewritten bytes back.  A container value is modeled by two uninterpreted
//! functions: the partial map from grid cell to the uncompressed payload of
//! the chunk stored there ([`region_model`]), and the set of cells whose
//! stored chunk cannot be read back (a corrupt header or body,
//! [`region_errs`]).  Two more names give the same two views as functions of
//! the raw bytes, so that parsing the same bytes twice — once while indexing
//! and once while compacting — is known to agree.
//!
//! The codec trusts its own header arithmetic: on a crafted file it can hit
//! an integer under- or overflow while reading a chunk header, and a length
//! field that lies about its extent breaks the rewrite round trip.  The
//! verified predicate [`container_wf_spec`], decided at run time by
//! [`container_wf`], pins down the files on which the codec is relied upon:
//! every present cell's chunk header must be in bounds, carry a length
//! between one and slightly under the 32-bit maximum, claim an extent that
//! lies inside the buffer, and the extents must be pairwise disjoint.  The
//! reading and flushing wrappers require [`region_wf`], which holds of a
//! container opened from such bytes; any other file is treated as one that
//! does not open.

use vstd::prelude::*;

verus! {

/// An in-memory container: the codec's region type over an owned byte
/// buffer.
pub type RegionBuf = fastanvil::Region<std::io::Cursor<Vec<u8>>>;

#[verifier::external_type_specification]
#[verifier::external_body]
#[verifier::reject_recursive_types(S)]
pub struct ExRegion<S>(fastanvil::Region<S>);

#[verifier::external_type_specification]
#[verifier::external_body]
#[verifier::reject_recursive_types(T)]
pub struct ExCursor<T>(std::io::Cursor<T>);

/// The chunks an opened container holds: a map from grid cell to the
/// uncompressed payload that reading that cell yields.
pub uninterp spec fn region_model(r: RegionBuf) -> Map<(usize, usize), Seq<u8>>;

/// The grid cells of an opened container whose stored chunk fails to read
/// back (present in the header, but with unreadable data).
pub uninterp spec fn region_errs(r: RegionBuf) -> Set<(usize, usize)>;

/// The chunk map that opening the given bytes yields, if they open at all.
pub uninterp spec fn region_parse(bytes: Seq<u8>) -> Option<Map<(usize, usize), Seq<u8>>>;

/// The unreadable cells that opening the given bytes yields.
pub uninterp spec fn region_parse_errs(bytes: Seq<u8>) -> Set<(usize, usize)>;

/// A container value on whose buffer the codec's header arithmetic is relied
/// upon.  It holds of exactly the containers opened from bytes satisfying
/// [`container_wf_spec`], and reading and removal keep it.
pub uninterp spec fn region_wf(r: RegionBuf) -> bool;

/// Stored sector offset of grid cell `i`'s header entry (big-endian, three
/// bytes).  Cell `i` is `(i % 32, i / 32)` on the grid; its entry sits at
/// byte `4·i`.
pub open spec fn loc_offset(bytes: Seq<u8>, i: int) -> u32 {
    ((bytes[4 * i] as u32) << 16) | ((bytes[4 * i + 1] as u32) << 8) | (bytes[4 * i + 2] as u32)
}

/// Stored sector count of grid cell `i`'s header entry.
pub open spec fn loc_sectors(bytes: Seq<u8>, i: int) -> u8 {
    bytes[4 * i + 3]
}

/// Whether cell `i` is present: its header entry is not all zero.
pub open spec fn cell_present(bytes: Seq<u8>, i: int) -> bool {
    loc_offset(bytes, i) != 0 || loc_sectors(bytes, i) != 0
}

/// First byte of cell `i`'s stored chunk (sectors are 4096 bytes).
pub open spec fn cell_start(bytes: Seq<u8>, i: int) -> int {
    loc_offset(bytes, i) * 4096
}

/// Stored length field of cell `i`'s chunk header (big-endian, four bytes);
/// it counts the compression byte and the compressed payload.
pub open spec fn cell_len(bytes: Seq<u8>, i: int) -> u32 {
    ((bytes[cell_start(bytes, i)] as u32) << 24) | ((bytes[cell_start(bytes, i) + 1] as u32) << 16)
        | ((bytes[cell_start(bytes, i) + 2] as u32) << 8) | (bytes[cell_start(bytes, i) + 3]
        as u32)
}

/// One byte past cell `i`'s stored chunk: the four length bytes plus the
/// stored length.
pub open spec fn cell_end(bytes: Seq<u8>, i: int) -> int {
    cell_start(bytes, i) + 4 + cell_len(bytes, i)
}

/// A present cell's chunk header is sane: it sits past the file header and
/// in bounds, and its length field neither underflows the codec's
/// length-minus-one nor overflows its length-plus-four arithmetic, nor
/// claims bytes past the end of the buffer.
pub open spec fn cell_sane(bytes: Seq<u8>, i: int) -> bool {
    &&& loc_offset(bytes, i) >= 2
    &&& cell_start(bytes, i) + 5 <= bytes.len()
    &&& 1 <= cell_len(bytes, i) <= 0xFFFF_FFFAu32
    &&& cell_end(bytes, i) <= bytes.len()
}

/// The stored chunks of two cells occupy disjoint byte ranges.
pub open spec fn cells_disjoint(bytes: Seq<u8>, i: int, j: int) -> bool {
    cell_end(bytes, i) <= cell_start(bytes, j) || cell_end(bytes, j) <= cell_start(bytes, i)
}

/// A container on whose bytes the codec is relied upon: large enough to
/// hold the file header, every present cell's chunk header sane, and the
/// stored chunks pairwise disjoint.  Any other byte string is treated as a
/// container that does not open.
pub open spec fn container_wf_spec(bytes: Seq<u8>) -> bool {
    &&& bytes.len() >= 8192
    &&& forall|i: int| 0 <= i < 1024 && #[trigger] cell_present(bytes, i) ==> cell_sane(bytes, i)
    &&& forall|i: int, j: int|
        0 <= i < j < 1024 && #[trigger] cell_present(bytes, i) && #[trigger] cell_present(bytes, j)
            ==> cells_disjoint(bytes, i, j)
}

/// Header entry of cell `i`: stored sector offset and sector count.
fn read_location(data: &Vec<u8>, i: usize) -> (r: (u32, u8))
    requires
        data@.len() >= 8192,
        i < 1024,
    ensures
        r.0 == loc_offset(data@, i as int),
        r.1 == loc_sectors(data@, i as int),
{
    let off = ((data[4 * i] as u32) << 16) | ((data[4 * i + 1] as u32) << 8) | (data[4 * i + 2]
        as u32);
    (off, data[4 * i + 3])
}

/// Length field of a cell whose chunk header lies inside the buffer.
fn read_cell_len(data: &Vec<u8>, i: usize) -> (r: u32)
    requires
        data@.len() >= 8192,
        i < 1024,
        cell_start(data@, i as int) + 4 <= data@.len(),
    ensures
        r == cell_len(data@, i as int),
{
    let (off, _sect) = read_location(data, i);
    let n: usize = data.len();
    let start64: u64 = off as u64 * 4096;
    proof {
        assert(start64 == cell_start(data@, i as int));
        assert(start64 + 4 <= n);
    }
    let start: usize = start64 as usize;
    ((data[start] as u32) << 24) | ((data[start + 1] as u32) << 16) | ((data[start + 2] as u32)
        << 8) | (data[start + 3] as u32)
}

/// Decides [`container_wf_spec`]: walks the 1024 header entries, checks
/// every present cell's chunk header, and checks the stored chunks pairwise
/// for disjointness.
#[verifier::loop_isolation(false)]
pub fn container_wf(data: &Vec<u8>) -> (b: bool)
    ensures
        b == container_wf_spec(data@),
{
    if data.len() < 8192 {
        return false;
    }
    let mut i: usize = 0;
    while i < 1024
        invariant
            i <= 1024,
            forall|k: int|
                0 <= k < i && #[trigger] cell_present(data@, k) ==> cell_sane(data@, k),
        decreases 1024 - i,
    {
        let (off, sect) = read_location(data, i);
        if off != 0 || sect != 0 {
            assert(cell_present(data@, i as int));
            if off < 2 {
                return false;
            }
            let start: u64 = off as u64 * 4096;
            if start + 5 > data.len() as u64 {
                return false;
            }
            let len32 = read_cell_len(data, i);
            if len32 < 1 || len32 > 0xFFFF_FFFA {
                return false;
            }
            if start + 4 + len32 as u64 > data.len() as u64 {
                return false;
            }
            assert(cell_sane(data@, i as int));
        }
        i = i + 1;
    }
    let mut a: usize = 0;
    while a < 1024
        invariant
            a <= 1024,
            forall|x: int, y: int|
                0 <= x < y < 1024 && x < a && #[trigger] cell_present(data@, x)
                    && #[trigger] cell_present(data@, y) ==> cells_disjoint(data@, x, y),
        decreases 1024 - a,
    {
        let (offa, secta) = read_location(data, a);
        if offa != 0 || secta != 0 {
            assert(cell_present(data@, a as int));
            let sa: u64 = offa as u64 * 4096;
            let la = read_cell_len(data, a);
            let ea: u64 = sa + 4 + la as u64;
            let mut b2: usize = a + 1;
            while b2 < 1024
                invariant
                    a < b2 <= 1024,
                    forall|y: int|
                        a < y < b2 && #[trigger] cell_present(data@, y) ==> cells_disjoint(
                            data@,
                            a as int,
                            y,
                        ),
                decreases 1024 - b2,
            {
                let (offb, sectb) = read_location(data, b2);
                if offb != 0 || sectb != 0 {
                    assert(cell_present(data@, b2 as int));
                    let sb: u64 = offb as u64 * 4096;
                    let lb = read_cell_len(data, b2);
                    let eb: u64 = sb + 4 + lb as u64;
                    if !(ea <= sb || eb <= sa) {
                        assert(!cells_disjoint(data@, a as int, b2 as int));
                        return false;
                    }
                }
                b2 = b2 + 1;
            }
        }
        a = a + 1;
    }
    true
}

/// Relies on fastanvil::Region::from_stream over an in-memory cursor: opens
/// a container from its bytes without touching storage.  The result is
/// deterministic in the bytes; readable cells and unreadable cells are
/// disjoint and lie on the 32×32 grid; a container opened from bytes with a
/// sane header is one on which the codec can be relied (`region_wf`).
#[verifier::external_body]
pub(crate) fn region_from_bytes(data: &Vec<u8>) -> (r: Option<RegionBuf>)
    ensures
        r is Some <==> region_parse(data@) is Some,
        r matches Some(reg) ==> {
            &&& region_model(reg) == region_parse(data@)->Some_0
            &&& region_errs(reg) == region_parse_errs(data@)
            &&& (region_wf(reg) <==> container_wf_spec(data@))
            &&& region_model(reg).dom().finite()
            &&& forall|p: (usize, usize)|
                #[trigger] region_model(reg).dom().contains(p) ==> p.0 < 32 && p.1 < 32
            &&& forall|p: (usize, usize)|
                #[trigger] region_errs(reg).contains(p) ==> p.0 < 32 && p.1 < 32
                    && !region_model(reg).dom().contains(p)
        },
{
    fastanvil::Region::from_stream(std::io::Cursor::new(data.clone())).ok()
}

/// Relies on fastanvil::Region::read_chunk: reads the uncompressed payload
/// of one grid cell.  Reading never changes what the container holds; the
/// result is `Ok(Some)` with the modeled payload exactly on readable cells,
/// `Ok(None)` exactly on empty cells, and an error exactly on unreadable
/// cells.  `region_wf` is required because the codec's header arithmetic
/// under- or overflows on a length field of zero or near the 32-bit
/// maximum, which sane headers exclude.
#[verifier::external_body]
pub(crate) fn region_read_chunk(reg: &mut RegionBuf, x: usize, z: usize) -> (r: Result<
    Option<Vec<u8>>,
    (),
>)
    requires
        region_wf(*old(reg)),
        x < 32,
        z < 32,
    ensures
        region_wf(*final(reg)),
        region_model(*final(reg)) == region_model(*old(reg)),
        region_errs(*final(reg)) == region_errs(*old(reg)),
        r matches Ok(Some(d)) ==> region_model(*old(reg)).dom().contains((x, z)) && d@
            == region_model(*old(reg))[(x, z)],
        r matches Ok(None) ==> !region_model(*old(reg)).dom().contains((x, z)) && !region_errs(
            *old(reg),
        ).contains((x, z)),
        r is Err ==> region_errs(*old(reg)).contains((x, z)),
{
    match reg.read_chunk(x, z) {
        Ok(v) => Ok(v),
        Err(_) => Err(()),
    }
}

/// Relies on fastanvil::Region::remove_chunk: clears one grid cell, so that
/// the cell is no longer present (readable or unreadable).  Removal only
/// zeroes the container's header entry for that cell, so a container with a
/// sane header keeps one; and under a sane header it cannot fail at all,
/// since every access is an in-bounds read, seek or write on the in-memory
/// buffer.
#[verifier::external_body]
pub(crate) fn region_remove_chunk(reg: &mut RegionBuf, x: usize, z: usize) -> (r: Result<(), ()>)
    requires
        x < 32,
        z < 32,
    ensures
        region_wf(*old(reg)) ==> r is Ok,
        r is Ok ==> region_model(*final(reg)) == region_model(*old(reg)).remove((x, z))
            && region_errs(*final(reg)) == region_errs(*old(reg)).remove((x, z)),
        r is Ok && region_wf(*old(reg)) ==> region_wf(*final(reg)),
{
    match reg.remove_chunk(x, z) {
        Ok(()) => Ok(()),
        Err(_) => Err(()),
    }
}

/// Relies on fastanvil::Region::into_inner: recovers the container's bytes,
/// sized to exactly the logical end of the remaining content (the analogue
/// of truncating a file to the stream position, as the codec's documentation
/// prescribes).  Reopening the returned bytes yields the same chunks the
/// container held.  `region_wf` is required and makes the call total: a
/// sane header keeps the codec's length-plus-four arithmetic from
/// overflowing and its length read in bounds, so recovering the buffer
/// cannot fail, and in-bounds, pairwise disjoint chunk extents guarantee
/// that resizing to the logical end cuts or zero-pads no remaining chunk.
#[verifier::external_body]
pub(crate) fn region_into_bytes(reg: RegionBuf) -> (r: Result<Vec<u8>, ()>)
    requires
        region_wf(reg),
    ensures
        r is Ok,
        r matches Ok(bytes) ==> region_parse(bytes@) == Some(region_model(reg))
            && region_parse_errs(bytes@) == region_errs(reg),
{
    let mut cur = match reg.into_inner() {
        Ok(c) => c,
        Err(_) => return Err(()),
    };
    let pos = cur.position() as usize;
    let mut out = cur.into_inner();
    out.resize(pos, 0);
    Ok(out)
}

} // verus!
