use mcl::coords::block_pos_in_section;
use mcl::coords::chunk_coord;
use mcl::coords::chunk_block_range;
use mcl::coords::region_block_range;
use mcl::parse::parse_coords;
use mcl::parse::parse_i32;
use mcl::parse::parse_region_stem;

#[test]
fn parse_i32_basics() {
    assert_eq!(parse_i32(b"0"), Some(0));
    assert_eq!(parse_i32(b"123"), Some(123));
    assert_eq!(parse_i32(b"-123"), Some(-123));
    assert_eq!(parse_i32(b"+7"), Some(7));
    assert_eq!(parse_i32(b"2147483647"), Some(i32::MAX));
    assert_eq!(parse_i32(b"-2147483648"), Some(i32::MIN));
    assert_eq!(parse_i32(b"2147483648"), None);
    assert_eq!(parse_i32(b"-2147483649"), None);
    assert_eq!(parse_i32(b"99999999999999999999"), None);
    assert_eq!(parse_i32(b""), None);
    assert_eq!(parse_i32(b"-"), None);
    assert_eq!(parse_i32(b"+"), None);
    assert_eq!(parse_i32(b"12a"), None);
    assert_eq!(parse_i32(b" 12"), None);
    assert_eq!(parse_i32(b"007"), Some(7));
}

#[test]
fn parse_coords_triples() {
    assert_eq!(parse_coords("1,2,3"), Some((1, 2, 3)));
    assert_eq!(parse_coords("-10,0,+4"), Some((-10, 0, 4)));
    assert_eq!(parse_coords("1,2"), None);
    assert_eq!(parse_coords("1"), None);
    assert_eq!(parse_coords("1,2,3,4"), None);
    assert_eq!(parse_coords("a,2,3"), None);
    assert_eq!(parse_coords("1,2,c"), None);
    assert_eq!(parse_coords(""), None);
    assert_eq!(parse_coords(",,"), None);
}

#[test]
fn parse_region_stem_pieces() {
    assert_eq!(parse_region_stem("r.0.0"), Some((0, 0)));
    assert_eq!(parse_region_stem("r.-3.11"), Some((-3, 11)));
    assert_eq!(parse_region_stem("region.5.-7"), Some((5, -7)));
    // Anything after a third dot is ignored, as with dot-split pieces.
    assert_eq!(parse_region_stem("r.1.2.extra"), Some((1, 2)));
    assert_eq!(parse_region_stem("r.1"), None);
    assert_eq!(parse_region_stem("r"), None);
    assert_eq!(parse_region_stem("r.x.2"), None);
    assert_eq!(parse_region_stem("r..2"), None);
}

#[test]
fn chunk_coordinate_formula() {
    assert_eq!(chunk_coord(0, 0, 0, 0), (0, 0));
    assert_eq!(chunk_coord(1, -2, 31, 5), (1 * 32 + 31, -2 * 32 + 5));
    assert_eq!(chunk_coord(-1, 0, 0, 31), (-32, 31));
    assert_eq!(chunk_coord(67108863, 0, 31, 0), (i32::MAX, 0));
    assert_eq!(chunk_coord(-67108864, 0, 0, 0), (i32::MIN, 0));
}

#[test]
fn block_coordinate_formula() {
    assert_eq!(chunk_block_range(0, 0), ((0, 0), (15, 15)));
    assert_eq!(chunk_block_range(3, -2), ((48, -32), (63, -17)));
    assert_eq!(region_block_range(1, -1), ((512, -512), (1023, -1)));
}

#[test]
fn block_position_in_section() {
    // Entry 0 sits at the chunk's low corner of the section.
    assert_eq!(block_pos_in_section(0, 0, 0, 0), (0, 0, 0));
    // The low nibble is x, the next nibble is z, the third nibble is y.
    assert_eq!(block_pos_in_section(0, 0, 0, 0x123), (3, 1, 2));
    assert_eq!(block_pos_in_section(2, -1, -4, 0xFFF), (2 * 16 + 15, -64 + 15, -16 + 15));
}
