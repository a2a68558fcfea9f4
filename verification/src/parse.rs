//! Verified parsing of the textual inputs the tool receives: signed decimal
//! integers, the `x,y,z` coordinate triples of the command line, and the two
//! dot-separated coordinates embedded in a region container's file name.
//!
//! All specifications are stated over the UTF-8 bytes of the input string,
//! which is exact for every input: the separators and digits involved are
//! single bytes, and any multi-byte character makes the affected piece
//! unparseable, exactly as it fails integer parsing at run time.

use vstd::prelude::*;

use crate::cli::Coords;
use vstd::string::StringSliceAdditionalSpecFns;

verus! {

/// Whether a byte is the ASCII code of a decimal digit.
pub open spec fn is_digit(b: u8) -> bool {
    48 <= b <= 57
}

/// Numeric value of an ASCII digit.
pub open spec fn digit_val(b: u8) -> int {
    b - 48
}

/// Every byte of the sequence is an ASCII digit.
pub open spec fn all_digits(s: Seq<u8>) -> bool {
    forall|i: int| 0 <= i < s.len() ==> is_digit(#[trigger] s[i])
}

/// Value of a digit sequence read as a base-10 numeral.
pub open spec fn digits_val(s: Seq<u8>) -> int
    decreases s.len(),
{
    if s.len() == 0 {
        0
    } else {
        10 * digits_val(s.drop_last()) + digit_val(s.last())
    }
}

/// The number a signed decimal numeral denotes, if it fits in `i32`:
/// an optional `+` or `-` sign, then one or more digits, nothing else.
pub open spec fn parse_i32_spec(s: Seq<u8>) -> Option<i32> {
    let signed = s.len() > 0 && (s[0] == 43 || s[0] == 45);
    let neg = s.len() > 0 && s[0] == 45;
    let body = if signed {
        s.skip(1)
    } else {
        s
    };
    if body.len() > 0 && all_digits(body) {
        let v = if neg {
            -digits_val(body)
        } else {
            digits_val(body)
        };
        if i32::MIN <= v <= i32::MAX {
            Some(v as i32)
        } else {
            None
        }
    } else {
        None
    }
}

/// A numeral's value is never negative.
proof fn lemma_digits_val_nonneg(s: Seq<u8>)
    requires
        all_digits(s),
    ensures
        digits_val(s) >= 0,
    decreases s.len(),
{
    if s.len() > 0 {
        assert(all_digits(s.drop_last()));
        lemma_digits_val_nonneg(s.drop_last());
    }
}

/// Reading one more digit multiplies the value so far by ten and adds the
/// digit.
proof fn lemma_digits_val_step(s: Seq<u8>, n: int)
    requires
        0 <= n < s.len(),
    ensures
        digits_val(s.take(n + 1)) == 10 * digits_val(s.take(n)) + digit_val(s[n]),
{
    assert(s.take(n + 1).drop_last() =~= s.take(n));
    assert(s.take(n + 1).last() == s[n]);
}

/// Parses an unsigned run of digits, reporting the value exactly when it is
/// at most `2^31` and reporting overflow otherwise.  `None` means a non-digit
/// byte was found (or the run is empty); `Some(None)` means overflow.
fn parse_digits(s: &[u8], start: usize) -> (r: Option<Option<i64>>)
    requires
        start <= s@.len(),
    ensures
        r is Some <==> (s@.len() > start && all_digits(s@.skip(start as int))),
        r matches Some(v) ==> {
            &&& (v is Some <==> digits_val(s@.skip(start as int)) <= 0x8000_0000)
            &&& (v matches Some(a) ==> a == digits_val(s@.skip(start as int)) && 0 <= a
                <= 0x8000_0000)
        },
{
    let ghost body = s@.skip(start as int);
    if start >= s.len() {
        return None;
    }
    let mut acc: i64 = 0;
    let mut over: bool = false;
    let mut j: usize = start;
    while j < s.len()
        invariant
            start <= j <= s@.len(),
            body == s@.skip(start as int),
            all_digits(body.take(j - start)),
            !over ==> 0 <= acc <= 0x8000_0000 && acc == digits_val(body.take(j - start)),
            over ==> digits_val(body.take(j - start)) > 0x8000_0000,
        decreases s@.len() - j,
    {
        let b = s[j];
        assert(b == body[j - start]);
        if b < 48 || b > 57 {
            assert(!is_digit(body[j - start]));
            return None;
        }
        let d = (b - 48) as i64;
        proof {
            lemma_digits_val_step(body, j - start);
            if over {
                lemma_digits_val_nonneg(body.take(j - start));
            }
        }
        if !over {
            acc = acc * 10 + d;
            if acc > 0x8000_0000 {
                over = true;
            }
        }
        assert(all_digits(body.take(j + 1 - start))) by {
            assert(forall|i: int|
                0 <= i < j - start ==> is_digit(#[trigger] body.take(j + 1 - start)[i]));
            assert(body.take(j + 1 - start)[j - start] == b);
        }
        j = j + 1;
    }
    assert(body.take(j - start) =~= body);
    if over {
        Some(None)
    } else {
        Some(Some(acc))
    }
}

/// Parses a signed decimal numeral exactly as the standard integer parser
/// does: optional sign, at least one digit, value within `i32`.
pub fn parse_i32(s: &[u8]) -> (r: Option<i32>)
    ensures
        r == parse_i32_spec(s@),
{
    if s.len() == 0 {
        return None;
    }
    let b0 = s[0];
    let signed = b0 == 43 || b0 == 45;
    let neg = b0 == 45;
    let start: usize = if signed {
        1
    } else {
        0
    };
    proof {
        if signed {
            assert(s@.skip(1) =~= s@.skip(start as int));
        } else {
            assert(s@ =~= s@.skip(0));
        }
    }
    match parse_digits(s, start) {
        None => None,
        Some(None) => None,
        Some(Some(a)) => {
            if neg {
                if a <= 0x8000_0000 {
                    Some((-a) as i32)
                } else {
                    None
                }
            } else {
                if a <= 0x7fff_ffff {
                    Some(a as i32)
                } else {
                    None
                }
            }
        },
    }
}

/// Index of the first occurrence of `c` in `s` at or after position `i`, or
/// the length of `s` if there is none.
pub open spec fn find_from(s: Seq<u8>, c: u8, i: int) -> int
    decreases s.len() - i,
    when i <= s.len()
{
    if i >= s.len() {
        s.len() as int
    } else if 0 <= i && s[i] == c {
        i
    } else {
        find_from(s, c, i + 1)
    }
}

/// Where the first occurrence search lands: between the start position and
/// the length, on an occurrence if there is one, past everything that is not
/// one.
pub proof fn lemma_find_from(s: Seq<u8>, c: u8, i: int)
    requires
        0 <= i <= s.len(),
    ensures
        i <= find_from(s, c, i) <= s.len(),
        find_from(s, c, i) < s.len() ==> s[find_from(s, c, i)] == c,
        forall|j: int| i <= j < find_from(s, c, i) ==> s[j] != c,
    decreases s.len() - i,
{
    if i < s.len() && s[i] != c {
        lemma_find_from(s, c, i + 1);
    }
}

/// First occurrence of `c` in `s` at or after `start`, or the length of `s`.
fn find_byte(s: &[u8], c: u8, start: usize) -> (r: usize)
    requires
        start <= s@.len(),
    ensures
        r == find_from(s@, c, start as int),
{
    let mut j: usize = start;
    while j < s.len()
        invariant
            start <= j <= s@.len(),
            find_from(s@, c, start as int) == find_from(s@, c, j as int),
        decreases s@.len() - j,
    {
        if s[j] == c {
            return j;
        }
        j = j + 1;
    }
    j
}

/// Copy of the byte range `[a, b)` of `s`.
fn bytes_range(s: &[u8], a: usize, b: usize) -> (r: Vec<u8>)
    requires
        a <= b <= s@.len(),
    ensures
        r@ == s@.subrange(a as int, b as int),
{
    let mut r: Vec<u8> = Vec::new();
    let mut j: usize = a;
    while j < b
        invariant
            a <= j <= b <= s@.len(),
            r@ =~= s@.subrange(a as int, j as int),
        decreases b - j,
    {
        r.push(s[j]);
        j = j + 1;
    }
    r
}

/// The coordinate triple a command-line argument denotes: three decimal
/// numerals separated by commas, where the third piece is everything after
/// the second comma (so a fourth comma makes the third piece unparseable),
/// and fewer than two commas leave fewer than three pieces.
pub open spec fn parse_coords_spec(s: Seq<u8>) -> Option<(i32, i32, i32)> {
    let i = find_from(s, 44, 0);
    if i == s.len() {
        None
    } else {
        let j = find_from(s, 44, i + 1);
        if j == s.len() {
            None
        } else {
            let p0 = parse_i32_spec(s.subrange(0, i));
            let p1 = parse_i32_spec(s.subrange(i + 1, j));
            let p2 = parse_i32_spec(s.skip(j + 1));
            if p0 is Some && p1 is Some && p2 is Some {
                Some((p0.unwrap(), p1.unwrap(), p2.unwrap()))
            } else {
                None
            }
        }
    }
}

/// Parses an `x,y,z` command-line coordinate triple.
pub fn parse_coords(coords: &str) -> (r: Option<Coords>)
    ensures
        r == parse_coords_spec(coords.spec_bytes()),
{
    let s = coords.as_bytes();
    proof {
        lemma_find_from(s@, 44, 0);
    }
    let i = find_byte(s, 44, 0);
    if i == s.len() {
        return None;
    }
    proof {
        lemma_find_from(s@, 44, i + 1);
    }
    let j = find_byte(s, 44, i + 1);
    if j == s.len() {
        return None;
    }
    let piece0 = bytes_range(s, 0, i);
    let piece1 = bytes_range(s, i + 1, j);
    let piece2 = bytes_range(s, j + 1, s.len());
    proof {
        assert(s@.subrange(j + 1 as int, s@.len() as int) =~= s@.skip(j + 1));
    }
    let p0 = parse_i32(piece0.as_slice());
    let p1 = parse_i32(piece1.as_slice());
    let p2 = parse_i32(piece2.as_slice());
    match (p0, p1, p2) {
        (Some(a), Some(b), Some(c)) => Some((a, b, c)),
        _ => None,
    }
}

/// Whether a path names a region container file: it ends in `.mca`.
pub open spec fn region_file_name_spec(s: Seq<u8>) -> bool {
    s.len() >= 4 && s.subrange(s.len() - 4, s.len() as int) =~= seq![46u8, 109u8, 99u8, 97u8]
}

/// Whether the path ends with the container file extension `.mca`.
pub fn is_region_file_name(path: &str) -> (b: bool)
    ensures
        b == region_file_name_spec(path.spec_bytes()),
{
    let s = path.as_bytes();
    let n = s.len();
    if n < 4 {
        return false;
    }
    let b = s[n - 4] == 46 && s[n - 3] == 109 && s[n - 2] == 99 && s[n - 1] == 97;
    proof {
        if b {
            assert(s@.subrange(s@.len() - 4, s@.len() as int) =~= seq![46u8, 109u8, 99u8, 97u8]);
        } else {
            assert(!(s@.subrange(s@.len() - 4, s@.len() as int) =~= seq![
                46u8,
                109u8,
                99u8,
                97u8,
            ])) by {
                assert(s@.subrange(s@.len() - 4, s@.len() as int)[0] == s@[s@.len() - 4]);
                assert(s@.subrange(s@.len() - 4, s@.len() as int)[1] == s@[s@.len() - 3]);
                assert(s@.subrange(s@.len() - 4, s@.len() as int)[2] == s@[s@.len() - 2]);
                assert(s@.subrange(s@.len() - 4, s@.len() as int)[3] == s@[s@.len() - 1]);
            }
        }
    }
    b
}

/// The region coordinates a container file's name stem denotes: the second
/// and third dot-separated pieces of the stem, each a decimal numeral.
pub open spec fn parse_region_stem_spec(s: Seq<u8>) -> Option<(i32, i32)> {
    let a = find_from(s, 46, 0);
    if a == s.len() {
        None
    } else {
        let b = find_from(s, 46, a + 1);
        if b == s.len() {
            None
        } else {
            let c = find_from(s, 46, b + 1);
            let p1 = parse_i32_spec(s.subrange(a + 1, b));
            let p2 = parse_i32_spec(s.subrange(b + 1, c));
            if p1 is Some && p2 is Some {
                Some((p1.unwrap(), p2.unwrap()))
            } else {
                None
            }
        }
    }
}

/// Parses the two region coordinates out of a container file's name stem.
pub fn parse_region_stem(stem: &str) -> (r: Option<(i32, i32)>)
    ensures
        r == parse_region_stem_spec(stem.spec_bytes()),
{
    let s = stem.as_bytes();
    proof {
        lemma_find_from(s@, 46, 0);
    }
    let a = find_byte(s, 46, 0);
    if a == s.len() {
        return None;
    }
    proof {
        lemma_find_from(s@, 46, a + 1);
    }
    let b = find_byte(s, 46, a + 1);
    if b == s.len() {
        return None;
    }
    proof {
        lemma_find_from(s@, 46, b + 1);
    }
    let c = find_byte(s, 46, b + 1);
    let piece1 = bytes_range(s, a + 1, b);
    let piece2 = bytes_range(s, b + 1, c);
    let p1 = parse_i32(piece1.as_slice());
    let p2 = parse_i32(piece2.as_slice());
    match (p1, p2) {
        (Some(x), Some(z)) => Some((x, z)),
        _ => None,
    }
}

} // verus!
