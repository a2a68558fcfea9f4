//! Point-in-box and rectangle-intersects-box tests over optional,
//! order-independent bounds.
//!
//! A bound pair is given as two optional corner positions.  When both are
//! present they are normalized component-wise with min/max, so the caller may
//! pass the corners in either order.  A missing lower bound extends the box
//! towards negative infinity, a missing upper bound towards positive infinity,
//! and with no bounds at all every point is inside.

use vstd::prelude::*;

use crate::cli::Coords;

verus! {

/// The smaller of two integers.
pub open spec fn lo(a: int, b: int) -> int {
    if a <= b {
        a
    } else {
        b
    }
}

/// The larger of two integers.
pub open spec fn hi(a: int, b: int) -> int {
    if a <= b {
        b
    } else {
        a
    }
}

/// Copies optional borrowed coordinates into an optional value, so that
/// contracts can speak about plain values.
pub open spec fn copied(o: Option<&Coords>) -> Option<Coords> {
    match o {
        Some(c) => Some(*c),
        None => None,
    }
}

/// Containment of a point in the (possibly half-open or fully open) box
/// described by two optional corners.  With both corners the box is the
/// component-wise inclusive range after min/max normalization; with only a
/// lower corner containment means component-wise at-least; with only an upper
/// corner component-wise at-most; with no corner every point is contained.
pub open spec fn in_bounds_spec(p: Coords, from: Option<Coords>, to: Option<Coords>) -> bool {
    match (from, to) {
        (Some(f), Some(t)) => {
            lo(f.0 as int, t.0 as int) <= p.0 <= hi(f.0 as int, t.0 as int)
                && lo(f.1 as int, t.1 as int) <= p.1 <= hi(f.1 as int, t.1 as int)
                && lo(f.2 as int, t.2 as int) <= p.2 <= hi(f.2 as int, t.2 as int)
        },
        (Some(f), None) => f.0 <= p.0 && f.1 <= p.1 && f.2 <= p.2,
        (None, Some(t)) => p.0 <= t.0 && p.1 <= t.1 && p.2 <= t.2,
        (None, None) => true,
    }
}

/// Intersection of the rectangle with corners `rf` (low) and `rt` (high) with
/// the box described by two optional corners, projected onto the horizontal
/// plane: the first rectangle component pairs with the first bound component,
/// the second with the third (height is ignored).
pub open spec fn rect_intersects_spec(
    rf: (i32, i32),
    rt: (i32, i32),
    from: Option<Coords>,
    to: Option<Coords>,
) -> bool {
    match (from, to) {
        (Some(f), Some(t)) => {
            lo(f.0 as int, t.0 as int) <= rt.0 && rf.0 <= hi(f.0 as int, t.0 as int)
                && lo(f.2 as int, t.2 as int) <= rt.1 && rf.1 <= hi(f.2 as int, t.2 as int)
        },
        (Some(f), None) => rt.0 >= f.0 && rt.1 >= f.2,
        (None, Some(t)) => rf.0 <= t.0 && rf.1 <= t.2,
        (None, None) => true,
    }
}

/// Whether `point` lies inside the bounds described by the optional corners
/// `from` and `to`.
pub fn within_bounds(point: &Coords, from: Option<&Coords>, to: Option<&Coords>) -> (b: bool)
    ensures
        b == in_bounds_spec(*point, copied(from), copied(to)),
{
    let p = point;
    if let (Some(f), Some(t)) = (from, to) {
        let f0: i32 = if f.0 <= t.0 { f.0 } else { t.0 };
        let f1: i32 = if f.1 <= t.1 { f.1 } else { t.1 };
        let f2: i32 = if f.2 <= t.2 { f.2 } else { t.2 };
        let t0: i32 = if f.0 <= t.0 { t.0 } else { f.0 };
        let t1: i32 = if f.1 <= t.1 { t.1 } else { f.1 };
        let t2: i32 = if f.2 <= t.2 { t.2 } else { f.2 };
        return (f0 <= p.0 && p.0 <= t0) && (f1 <= p.1 && p.1 <= t1) && (f2 <= p.2 && p.2 <= t2);
    }
    if let Some(f) = from {
        return (f.0 <= p.0) && (f.1 <= p.1) && (f.2 <= p.2);
    }
    if let Some(t) = to {
        return (p.0 <= t.0) && (p.1 <= t.1) && (p.2 <= t.2);
    }
    true
}

/// Whether the rectangle with low corner `rf` and high corner `rt` intersects
/// the bounds described by the optional corners `from` and `to`.
pub fn rect_intersects_bounds(
    rf: (i32, i32),
    rt: (i32, i32),
    from: Option<&Coords>,
    to: Option<&Coords>,
) -> (b: bool)
    ensures
        b == rect_intersects_spec(rf, rt, copied(from), copied(to)),
{
    if let (Some(f), Some(t)) = (from, to) {
        let bf = (if f.0 <= t.0 { f.0 } else { t.0 }, if f.2 <= t.2 { f.2 } else { t.2 });
        let bt = (if f.0 <= t.0 { t.0 } else { f.0 }, if f.2 <= t.2 { t.2 } else { f.2 });
        if (bf.0 <= rt.0 && rf.0 <= bt.0) && (bf.1 <= rt.1 && rf.1 <= bt.1) {
            return true;
        }
        return false;
    }
    if let Some(f) = from {
        let bf = (f.0, f.2);
        return rt.0 >= bf.0 && rt.1 >= bf.1;
    }
    if let Some(t) = to {
        let bt = (t.0, t.2);
        return rf.0 <= bt.0 && rf.1 <= bt.1;
    }
    true
}

/// Law: containment with two supplied corners does not depend on the order in
/// which the corners are given.
pub proof fn lemma_in_bounds_corner_order(p: Coords, a: Coords, b: Coords)
    ensures
        in_bounds_spec(p, Some(a), Some(b)) == in_bounds_spec(p, Some(b), Some(a)),
{
}

/// Law: the rectangle-intersects-bounds test is invariant under swapping the
/// `from` and `to` arguments, whenever the two arguments are either both
/// present or both absent.  (Swapping a single one-sided bound changes which
/// side of space the box covers, so the law is restricted to that case.)
pub proof fn lemma_rect_intersects_swap(
    rf: (i32, i32),
    rt: (i32, i32),
    from: Option<Coords>,
    to: Option<Coords>,
)
    requires
        from is Some <==> to is Some,
    ensures
        rect_intersects_spec(rf, rt, from, to) == rect_intersects_spec(rf, rt, to, from),
{
}

} // verus!
