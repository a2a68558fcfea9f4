//! The selective compaction engine: activity indexing, boundary detection,
//! the keep decision with its protective buffer ring, and per-container
//! compaction.
//!
//! The pipeline has two phases separated by a barrier.  The read-only phase
//! builds the [`ActivityIndex`] from every readable container, derives the
//! [boundary](compute_boundary) of the active terrain, and computes the
//! [`KeepSet`].  Only then does the destructive phase rewrite containers,
//! and it re-derives every chunk coordinate from the container's own cells
//! rather than trusting anything cached.

use vstd::prelude::*;

use crate::coords::chunk_coord;
use crate::coords::region_coord_in_range;
use crate::nbt::decode_ok;
use crate::nbt::decoded_inhabited;
use crate::nbt::load_chunk;
use crate::region::RegionBuf;
use crate::region::container_wf;
use crate::region::container_wf_spec;
use crate::region::region_errs;
use crate::region::region_from_bytes;
use crate::region::region_wf;
use crate::region::region_into_bytes;
use crate::region::region_model;
use crate::region::region_parse;
use crate::region::region_parse_errs;
use crate::parse::parse_region_stem;
use crate::parse::parse_region_stem_spec;
use crate::region::region_read_chunk;
use crate::region::region_remove_chunk;

verus! {

/// The two components of a coordinate pair, as unbounded integers.
pub open spec fn pair_int(p: (i32, i32)) -> (int, int) {
    (p.0 as int, p.1 as int)
}

/// The mapping that a sequence of coordinate/duration entries denotes; a
/// later entry for the same coordinate overrides an earlier one.
pub open spec fn entries_map(s: Seq<((i32, i32), u64)>) -> Map<(int, int), u64>
    decreases s.len(),
{
    if s.len() == 0 {
        Map::empty()
    } else {
        entries_map(s.drop_last()).insert(pair_int(s.last().0), s.last().1)
    }
}

/// No coordinate occurs twice.
pub open spec fn distinct_keys(s: Seq<((i32, i32), u64)>) -> bool {
    forall|i: int, j: int|
        0 <= i < j < s.len() ==> pair_int(#[trigger] s[i].0) != pair_int(#[trigger] s[j].0)
}

/// Every coordinate of the denoted mapping is 32-bit.
proof fn lemma_entries_map_dom_bounds(s: Seq<((i32, i32), u64)>)
    ensures
        forall|c: (int, int)| #[trigger]
            entries_map(s).dom().contains(c) ==> i32::MIN <= c.0 <= i32::MAX && i32::MIN <= c.1
                <= i32::MAX,
    decreases s.len(),
{
    if s.len() > 0 {
        lemma_entries_map_dom_bounds(s.drop_last());
        assert forall|c: (int, int)| #[trigger]
            entries_map(s).dom().contains(c) implies i32::MIN <= c.0 <= i32::MAX && i32::MIN <= c.1
            <= i32::MAX by {
            if c != pair_int(s.last().0) {
                assert(entries_map(s.drop_last()).dom().contains(c));
            }
        }
    }
}

/// For distinct entries the denoted mapping has exactly the entry
/// coordinates as its domain, one per entry, with the entry's duration.
proof fn lemma_entries_map_props(s: Seq<((i32, i32), u64)>)
    requires
        distinct_keys(s),
    ensures
        entries_map(s).dom().finite(),
        entries_map(s).dom().len() == s.len(),
        forall|c: (int, int)|
            #![trigger entries_map(s).dom().contains(c)]
            entries_map(s).dom().contains(c) <==> exists|i: int|
                0 <= i < s.len() && pair_int(s[i].0) == c,
        forall|i: int|
            0 <= i < s.len() ==> entries_map(s)[pair_int(#[trigger] s[i].0)] == s[i].1,
    decreases s.len(),
{
    if s.len() > 0 {
        let pre = s.drop_last();
        assert(forall|i: int| 0 <= i < pre.len() ==> pre[i] == s[i]);
        assert(distinct_keys(pre));
        lemma_entries_map_props(pre);
        let k = pair_int(s.last().0);
        assert(!entries_map(pre).dom().contains(k)) by {
            if entries_map(pre).dom().contains(k) {
                let i = choose|i: int| 0 <= i < pre.len() && pair_int(pre[i].0) == k;
                assert(pair_int(s[i].0) == pair_int(s[s.len() - 1].0));
            }
        }
        assert forall|c: (int, int)| #[trigger]
            entries_map(s).dom().contains(c) implies exists|i: int|
            0 <= i < s.len() && pair_int(s[i].0) == c by {
            if c == k {
                assert(pair_int(s[s.len() - 1].0) == c);
            } else {
                let i = choose|i: int| 0 <= i < pre.len() && pair_int(pre[i].0) == c;
                assert(pair_int(s[i].0) == c);
            }
        }
        assert forall|i: int| 0 <= i < s.len() implies entries_map(s)[pair_int(
            #[trigger] s[i].0,
        )] == s[i].1 by {
            if i < s.len() - 1 {
                assert(pair_int(s[i].0) != k);
                assert(entries_map(s)[pair_int(s[i].0)] == entries_map(pre)[pair_int(pre[i].0)]);
            }
        }
    }
}

/// Removing one entry of a distinct sequence removes exactly its coordinate
/// from the denoted mapping.
proof fn lemma_entries_map_remove(s: Seq<((i32, i32), u64)>, i: int)
    requires
        distinct_keys(s),
        0 <= i < s.len(),
    ensures
        entries_map(s.remove(i)) == entries_map(s).remove(pair_int(s[i].0)),
    decreases s.len(),
{
    let pre = s.drop_last();
    assert(forall|j: int| 0 <= j < pre.len() ==> pre[j] == s[j]);
    assert(distinct_keys(pre));
    let k = pair_int(s[i].0);
    let klast = pair_int(s.last().0);
    if i == s.len() - 1 {
        assert(s.remove(i) =~= pre);
        lemma_entries_map_props(pre);
        assert(!entries_map(pre).dom().contains(k)) by {
            if entries_map(pre).dom().contains(k) {
                let j = choose|j: int| 0 <= j < pre.len() && pair_int(pre[j].0) == k;
                assert(pair_int(s[j].0) == pair_int(s[i].0));
            }
        }
        assert(entries_map(pre) =~= entries_map(pre).insert(k, s.last().1).remove(k));
    } else {
        assert(k != klast);
        assert(s.remove(i).drop_last() =~= pre.remove(i));
        assert(s.remove(i).last() == s.last());
        lemma_entries_map_remove(pre, i);
        assert(entries_map(s.remove(i)) == entries_map(pre.remove(i)).insert(
            klast,
            s.last().1,
        ));
        assert(entries_map(pre).remove(k).insert(klast, s.last().1) =~= entries_map(pre).insert(
            klast,
            s.last().1,
        ).remove(k));
    }
}

/// Activity index: the mapping from world chunk coordinate to recorded
/// inhabited duration, built once from every readable container and then
/// read-only.  Absence of a coordinate means no activity evidence was
/// obtainable, which is distinct from a recorded duration of zero.
pub struct ActivityIndex {
    entries: Vec<((i32, i32), u64)>,
}

impl View for ActivityIndex {
    type V = Map<(int, int), u64>;

    closed spec fn view(&self) -> Map<(int, int), u64> {
        entries_map(self.entries@)
    }
}

impl ActivityIndex {
    /// Well-formed: no coordinate is recorded twice.
    pub closed spec fn wf(&self) -> bool {
        distinct_keys(self.entries@)
    }

    /// Every recorded coordinate is 32-bit.
    pub proof fn lemma_dom_bounds(&self)
        ensures
            forall|c: (int, int)| #[trigger]
                self@.dom().contains(c) ==> i32::MIN <= c.0 <= i32::MAX && i32::MIN <= c.1
                    <= i32::MAX,
    {
        lemma_entries_map_dom_bounds(self.entries@);
    }

    /// An empty index.
    pub fn new() -> (r: ActivityIndex)
        ensures
            r.wf(),
            r@ == Map::<(int, int), u64>::empty(),
    {
        ActivityIndex { entries: Vec::new() }
    }

    /// Number of recorded coordinates.
    pub fn len(&self) -> (n: usize)
        requires
            self.wf(),
        ensures
            n == self@.dom().len(),
    {
        proof {
            lemma_entries_map_props(self.entries@);
        }
        self.entries.len()
    }

    /// The recorded duration of a coordinate, if any.
    pub fn get(&self, x: i32, z: i32) -> (r: Option<u64>)
        requires
            self.wf(),
        ensures
            r matches Some(t) ==> self@.dom().contains((x as int, z as int)) && self@[
                (x as int, z as int)
            ] == t,
            r is None ==> !self@.dom().contains((x as int, z as int)),
    {
        proof {
            lemma_entries_map_props(self.entries@);
        }
        let n = self.entries.len();
        let mut i: usize = 0;
        while i < n
            invariant
                self.wf(),
                n == self.entries@.len(),
                forall|j: int| 0 <= j < i ==> pair_int(#[trigger] self.entries@[j].0) != (
                x as int,
                z as int,
                ),
            decreases n - i,
        {
            let e = self.entries[i];
            if e.0.0 == x && e.0.1 == z {
                proof {
                    lemma_entries_map_props(self.entries@);
                }
                return Some(e.1);
            }
            i = i + 1;
        }
        None
    }

    /// Records a duration for a coordinate, replacing any earlier record.
    #[verifier::loop_isolation(false)]
    pub fn upsert(&mut self, x: i32, z: i32, t: u64)
        requires
            old(self).wf(),
        ensures
            final(self).wf(),
            final(self)@ == old(self)@.insert((x as int, z as int), t),
    {
        let ghost s0 = self.entries@;
        let n = self.entries.len();
        let mut i: usize = 0;
        while i < n
            invariant
                self.entries@ == s0,
                distinct_keys(s0),
                n == s0.len(),
                forall|j: int| 0 <= j < i ==> pair_int(#[trigger] s0[j].0) != (x as int, z as int),
            decreases n - i,
        {
            let e = self.entries[i];
            if e.0.0 == x && e.0.1 == z {
                self.entries.remove(i);
                self.entries.push(((x, z), t));
                proof {
                    lemma_entries_map_remove(s0, i as int);
                    let s1 = s0.remove(i as int);
                    assert(distinct_keys(s1)) by {
                        assert(forall|a: int|
                            0 <= a < s1.len() ==> s1[a] == if a < i {
                                s0[a]
                            } else {
                                s0[a + 1]
                            });
                    }
                    lemma_entries_map_props(s1);
                    assert(self.entries@.drop_last() =~= s1);
                    assert(self.entries@.last() == ((x, z), t));
                    assert(distinct_keys(self.entries@)) by {
                        assert(forall|a: int|
                            0 <= a < s1.len() ==> self.entries@[a] == s1[a]);
                        assert(!entries_map(s1).dom().contains((x as int, z as int)));
                        assert forall|a: int, b: int|
                            0 <= a < b < self.entries@.len() implies pair_int(
                            self.entries@[a].0,
                        ) != pair_int(self.entries@[b].0) by {
                            if b == self.entries@.len() - 1 {
                                if pair_int(s1[a].0) == (x as int, z as int) {
                                    assert(entries_map(s1).dom().contains((x as int, z as int)));
                                }
                            }
                        }
                    }
                    assert(self@ =~= old(self)@.insert((x as int, z as int), t));
                }
                return ;
            }
            i = i + 1;
        }
        self.entries.push(((x, z), t));
        proof {
            lemma_entries_map_props(s0);
            assert(self.entries@.drop_last() =~= s0);
            assert(distinct_keys(self.entries@)) by {
                assert(forall|a: int| 0 <= a < s0.len() ==> self.entries@[a] == s0[a]);
                assert forall|a: int, b: int|
                    0 <= a < b < self.entries@.len() implies pair_int(self.entries@[a].0)
                    != pair_int(self.entries@[b].0) by {}
            }
            assert(self@ =~= old(self)@.insert((x as int, z as int), t));
        }
    }
}

/// A coordinate is active when the index records a duration at or above the
/// threshold for it; an absent coordinate is inactive.
pub open spec fn active(ages: Map<(int, int), u64>, thr: u64, c: (int, int)) -> bool {
    ages.dom().contains(c) && ages[c] >= thr
}

/// Grid adjacency: distinct coordinates whose components each differ by at
/// most one (the eight surrounding cells).
pub open spec fn adjacent(c: (int, int), d: (int, int)) -> bool {
    &&& !(d.0 == c.0 && d.1 == c.1)
    &&& -1 <= d.0 - c.0 <= 1
    &&& -1 <= d.1 - c.1 <= 1
}

/// A boundary point: an active coordinate with at least one inactive or
/// untracked grid neighbor.
pub open spec fn is_boundary(ages: Map<(int, int), u64>, thr: u64, c: (int, int)) -> bool {
    active(ages, thr, c) && exists|d: (int, int)| #[trigger] adjacent(c, d) && !active(ages, thr, d)
}

/// Law: a coordinate with inhabited time exactly at the threshold is active;
/// one tick below, it is not.
pub proof fn lemma_threshold_edge(ages: Map<(int, int), u64>, thr: u64, c: (int, int))
    requires
        ages.dom().contains(c),
    ensures
        ages[c] == thr ==> active(ages, thr, c),
        ages[c] < thr ==> !active(ages, thr, c),
{
}

/// Law: a coordinate the index does not track is never a boundary point; in
/// particular a chunk whose decode failed, which is never recorded, never
/// contributes one.
pub proof fn lemma_untracked_not_boundary(ages: Map<(int, int), u64>, thr: u64, c: (int, int))
    requires
        !ages.dom().contains(c),
    ensures
        !is_boundary(ages, thr, c),
{
}

/// Whether the neighbor of `(cx, cz)` displaced by `(dx, dz)` is active.
/// A displaced coordinate outside the 32-bit range is never tracked.
fn neighbor_active(ages: &ActivityIndex, thr: u64, cx: i32, cz: i32, dx: i32, dz: i32) -> (b: bool)
    requires
        ages.wf(),
        -1 <= dx <= 1,
        -1 <= dz <= 1,
    ensures
        b == active(ages@, thr, (cx as int + dx as int, cz as int + dz as int)),
{
    let nx = cx as i64 + dx as i64;
    let nz = cz as i64 + dz as i64;
    if nx < i32::MIN as i64 || nx > i32::MAX as i64 || nz < i32::MIN as i64 || nz > i32::MAX
        as i64 {
        proof {
            ages.lemma_dom_bounds();
        }
        return false;
    }
    match ages.get(nx as i32, nz as i32) {
        Some(t) => t >= thr,
        None => false,
    }
}

/// Finds the boundary of the active terrain: every active coordinate with
/// fewer than eight active neighbors, each exactly once, unordered.
pub fn compute_boundary(ages: &ActivityIndex, inhabited_under: u64) -> (r: Vec<(i32, i32)>)
    requires
        ages.wf(),
    ensures
        forall|k: int|
            0 <= k < r@.len() ==> is_boundary(ages@, inhabited_under, pair_int(#[trigger] r@[k])),
        forall|c: (i32, i32)|
            is_boundary(ages@, inhabited_under, pair_int(c)) ==> #[trigger] r@.contains(c),
        r@.no_duplicates(),
{
    proof {
        lemma_entries_map_props(ages.entries@);
    }
    let mut r: Vec<(i32, i32)> = Vec::new();
    let n = ages.entries.len();
    let mut i: usize = 0;
    while i < n
        invariant
            ages.wf(),
            n == ages.entries@.len(),
            i <= n,
            forall|k: int|
                0 <= k < r@.len() ==> is_boundary(
                    ages@,
                    inhabited_under,
                    pair_int(#[trigger] r@[k]),
                ),
            forall|j: int|
                0 <= j < i && is_boundary(ages@, inhabited_under, pair_int(ages.entries@[j].0))
                    ==> r@.contains(#[trigger] ages.entries@[j].0),
            forall|k: int|
                0 <= k < r@.len() ==> exists|j: int|
                    0 <= j < i && #[trigger] r@[k] == ages.entries@[j].0,
            r@.no_duplicates(),
        decreases n - i,
    {
        let e = ages.entries[i];
        let c = e.0;
        let ghost pc = pair_int(c);
        proof {
            lemma_entries_map_props(ages.entries@);
            assert(ages@.dom().contains(pc));
            assert(ages@[pc] == e.1);
        }
        if e.1 >= inhabited_under {
            assert(active(ages@, inhabited_under, pc));
            let a1 = neighbor_active(ages, inhabited_under, c.0, c.1, -1, -1);
            let a2 = neighbor_active(ages, inhabited_under, c.0, c.1, -1, 0);
            let a3 = neighbor_active(ages, inhabited_under, c.0, c.1, -1, 1);
            let a4 = neighbor_active(ages, inhabited_under, c.0, c.1, 0, -1);
            let a5 = neighbor_active(ages, inhabited_under, c.0, c.1, 0, 1);
            let a6 = neighbor_active(ages, inhabited_under, c.0, c.1, 1, -1);
            let a7 = neighbor_active(ages, inhabited_under, c.0, c.1, 1, 0);
            let a8 = neighbor_active(ages, inhabited_under, c.0, c.1, 1, 1);
            if !(a1 && a2 && a3 && a4 && a5 && a6 && a7 && a8) {
                proof {
                    if !a1 {
                        assert(adjacent(pc, (pc.0 - 1, pc.1 - 1)));
                    } else if !a2 {
                        assert(adjacent(pc, (pc.0 - 1, pc.1)));
                    } else if !a3 {
                        assert(adjacent(pc, (pc.0 - 1, pc.1 + 1)));
                    } else if !a4 {
                        assert(adjacent(pc, (pc.0, pc.1 - 1)));
                    } else if !a5 {
                        assert(adjacent(pc, (pc.0, pc.1 + 1)));
                    } else if !a6 {
                        assert(adjacent(pc, (pc.0 + 1, pc.1 - 1)));
                    } else if !a7 {
                        assert(adjacent(pc, (pc.0 + 1, pc.1)));
                    } else {
                        assert(adjacent(pc, (pc.0 + 1, pc.1 + 1)));
                    }
                    assert(is_boundary(ages@, inhabited_under, pc));
                    if r@.contains(c) {
                        let k = choose|k: int| 0 <= k < r@.len() && r@[k] == c;
                        let j = choose|j: int| 0 <= j < i && r@[k] == ages.entries@[j].0;
                        assert(pair_int(ages.entries@[j].0) == pair_int(ages.entries@[i as int].0));
                        assert(false);
                    }
                }
                let ghost r0 = r@;
                r.push(c);
                proof {
                    assert(forall|k: int| 0 <= k < r0.len() ==> r@[k] == r0[k]);
                    assert(r@[r0.len() as int] == c);
                    assert forall|j: int|
                        0 <= j < i + 1 && is_boundary(
                            ages@,
                            inhabited_under,
                            pair_int(ages.entries@[j].0),
                        ) implies r@.contains(#[trigger] ages.entries@[j].0) by {
                        if j < i {
                            let k = choose|k: int| 0 <= k < r0.len() && r0[k] == ages.entries@[j].0;
                            assert(r@[k] == ages.entries@[j].0);
                        } else {
                            assert(r@[r0.len() as int] == ages.entries@[j].0);
                        }
                    }
                    assert(r@.no_duplicates()) by {
                        assert(!r0.contains(c));
                        assert(forall|a: int| 0 <= a < r0.len() ==> r0[a] != c);
                        assert forall|a: int, b: int|
                            0 <= a < b < r@.len() implies r@[a] != r@[b] by {
                            if b == r0.len() {
                                assert(r@[a] == r0[a]);
                                assert(r@[b] == c);
                            }
                        }
                    }
                }
            } else {
                proof {
                    assert forall|d: (int, int)| #[trigger]
                        adjacent(pc, d) implies active(ages@, inhabited_under, d) by {
                        let dx = d.0 - pc.0;
                        let dz = d.1 - pc.1;
                        assert(d == (pc.0 + dx, pc.1 + dz));
                    }
                    assert(!is_boundary(ages@, inhabited_under, pc));
                }
            }
        } else {
            assert(!active(ages@, inhabited_under, pc));
        }
        i = i + 1;
    }
    proof {
        assert forall|c: (i32, i32)|
            is_boundary(ages@, inhabited_under, pair_int(c)) implies #[trigger] r@.contains(c) by {
            lemma_entries_map_props(ages.entries@);
            assert(ages@.dom().contains(pair_int(c)));
            let j = choose|j: int|
                0 <= j < ages.entries@.len() && pair_int(ages.entries@[j].0) == pair_int(c);
            assert(ages.entries@[j].0 == c);
        }
    }
    r
}

/// Squared Euclidean distance between two grid coordinates.
pub open spec fn sq_dist(a: (int, int), b: (int, int)) -> int {
    (a.0 - b.0) * (a.0 - b.0) + (a.1 - b.1) * (a.1 - b.1)
}

/// The keep decision: a coordinate survives compaction when it is tracked
/// and either active, or within the squared buffer distance of some boundary
/// point of the active terrain.
pub open spec fn kept(ages: Map<(int, int), u64>, thr: u64, buffer_sq: u64, c: (int, int)) -> bool {
    &&& ages.dom().contains(c)
    &&& (ages[c] >= thr || exists|b: (int, int)|
        #[trigger] is_boundary(ages, thr, b) && sq_dist(c, b) <= buffer_sq)
}

/// Law: enlarging the buffer radius never shrinks the keep decision, for a
/// fixed activity index and threshold.
pub proof fn lemma_keep_monotonic(ages: Map<(int, int), u64>, thr: u64, bsq1: u64, bsq2: u64)
    requires
        bsq1 <= bsq2,
    ensures
        forall|c: (int, int)| kept(ages, thr, bsq1, c) ==> #[trigger] kept(ages, thr, bsq2, c),
{
    assert forall|c: (int, int)| kept(ages, thr, bsq1, c) implies #[trigger] kept(
        ages,
        thr,
        bsq2,
        c,
    ) by {
        if !(ages[c] >= thr) {
            let b = choose|b: (int, int)| #[trigger]
                is_boundary(ages, thr, b) && sq_dist(c, b) <= bsq1;
            assert(is_boundary(ages, thr, b) && sq_dist(c, b) <= bsq2);
        }
    }
}

/// The set of coordinates that must survive compaction.
pub struct KeepSet {
    coords: Vec<(i32, i32)>,
}

/// The set of coordinates a coordinate sequence denotes.
pub open spec fn pairs_set(s: Seq<(i32, i32)>) -> Set<(int, int)> {
    Set::new(|c: (int, int)| exists|i: int| 0 <= i < s.len() && pair_int(#[trigger] s[i]) == c)
}

/// For a duplicate-free sequence the denoted set has exactly one member per
/// element.
proof fn lemma_pairs_set_card(s: Seq<(i32, i32)>)
    requires
        s.no_duplicates(),
    ensures
        pairs_set(s).finite(),
        pairs_set(s).len() == s.len(),
    decreases s.len(),
{
    if s.len() == 0 {
        assert(pairs_set(s) =~= Set::<(int, int)>::empty());
    } else {
        let pre = s.drop_last();
        let k = pair_int(s.last());
        lemma_pairs_set_card(pre);
        assert(pairs_set(s) =~= pairs_set(pre).insert(k)) by {
            assert forall|c: (int, int)| pairs_set(s).contains(c) implies pairs_set(
                pre,
            ).insert(k).contains(c) by {
                let i = choose|i: int| 0 <= i < s.len() && pair_int(s[i]) == c;
                if i < s.len() - 1 {
                    assert(pair_int(pre[i]) == c);
                }
            }
            assert forall|c: (int, int)| pairs_set(pre).insert(k).contains(c) implies pairs_set(
                s,
            ).contains(c) by {
                if c == k {
                    assert(pair_int(s[s.len() - 1]) == c);
                } else {
                    let i = choose|i: int| 0 <= i < pre.len() && pair_int(pre[i]) == c;
                    assert(pair_int(s[i]) == c);
                }
            }
        }
        assert(!pairs_set(pre).contains(k)) by {
            if pairs_set(pre).contains(k) {
                let i = choose|i: int| 0 <= i < pre.len() && pair_int(pre[i]) == k;
                assert(s[i] == s[s.len() - 1]);
            }
        }
    }
}

impl View for KeepSet {
    type V = Set<(int, int)>;

    closed spec fn view(&self) -> Set<(int, int)> {
        pairs_set(self.coords@)
    }
}

impl KeepSet {
    /// Well-formed: no coordinate is listed twice.
    pub closed spec fn wf(&self) -> bool {
        self.coords@.no_duplicates()
    }

    /// An empty keep set.
    pub fn new() -> (r: KeepSet)
        ensures
            r.wf(),
            r@ == Set::<(int, int)>::empty(),
    {
        let r = KeepSet { coords: Vec::new() };
        proof {
            assert(r@ =~= Set::<(int, int)>::empty());
        }
        r
    }

    /// Number of coordinates in the set.
    pub fn len(&self) -> (n: usize)
        requires
            self.wf(),
        ensures
            n == self@.len(),
    {
        proof {
            lemma_pairs_set_card(self.coords@);
        }
        self.coords.len()
    }

    /// Whether the set holds the coordinate.
    pub fn contains(&self, x: i32, z: i32) -> (b: bool)
        ensures
            b == self@.contains((x as int, z as int)),
    {
        let n = self.coords.len();
        let mut i: usize = 0;
        while i < n
            invariant
                n == self.coords@.len(),
                forall|j: int| 0 <= j < i ==> pair_int(#[trigger] self.coords@[j]) != (
                x as int,
                z as int,
                ),
            decreases n - i,
        {
            let e = self.coords[i];
            if e.0 == x && e.1 == z {
                assert(pair_int(self.coords@[i as int]) == (x as int, z as int));
                return true;
            }
            i = i + 1;
        }
        false
    }

    /// Adds a coordinate to the set.
    pub fn insert(&mut self, x: i32, z: i32)
        requires
            old(self).wf(),
        ensures
            final(self).wf(),
            final(self)@ == old(self)@.insert((x as int, z as int)),
    {
        let ghost s0 = self.coords@;
        if !self.contains(x, z) {
            self.coords.push((x, z));
            proof {
                assert(self.coords@.drop_last() =~= s0);
                assert forall|a: int, b: int|
                    0 <= a < b < self.coords@.len() implies self.coords@[a] != self.coords@[b] by {
                    if b == self.coords@.len() - 1 {
                        if self.coords@[a] == (x, z) {
                            assert(pair_int(s0[a]) == (x as int, z as int));
                        }
                    }
                }
                assert(self@ =~= old(self)@.insert((x as int, z as int))) by {
                    assert forall|c: (int, int)| self@.contains(c) implies old(self)@.insert(
                        (x as int, z as int),
                    ).contains(c) by {
                        let i = choose|i: int|
                            0 <= i < self.coords@.len() && pair_int(self.coords@[i]) == c;
                        if i < s0.len() {
                            assert(pair_int(s0[i]) == c);
                        }
                    }
                    assert forall|c: (int, int)|
                        old(self)@.insert((x as int, z as int)).contains(c) implies self@.contains(
                        c,
                    ) by {
                        if c == (x as int, z as int) {
                            assert(pair_int(self.coords@[self.coords@.len() - 1]) == c);
                        } else {
                            let i = choose|i: int| 0 <= i < s0.len() && pair_int(s0[i]) == c;
                            assert(pair_int(self.coords@[i]) == c);
                        }
                    }
                }
            }
        } else {
            proof {
                assert(self@ =~= old(self)@.insert((x as int, z as int)));
            }
        }
    }
}

/// The grid cell visited at step `idx` of a container walk: the x offset
/// runs fastest, then z.
pub open spec fn cell(idx: int) -> (usize, usize) {
    ((idx % 32) as usize, (idx / 32) as usize)
}

/// Whether the chunk stored at cell `p` of a container at region coordinate
/// `(rx, rz)` is to be removed: it is present, it decodes (an undecodable
/// chunk is never removed), and its world coordinate is not in the keep set.
pub open spec fn removable_cell(
    m: Map<(usize, usize), Seq<u8>>,
    rx: i32,
    rz: i32,
    keep: Set<(int, int)>,
    p: (usize, usize),
) -> bool {
    &&& m.dom().contains(p)
    &&& decode_ok(m[p])
    &&& !keep.contains((rx * 32 + p.0 as int, rz * 32 + p.1 as int))
}

/// Number of removable chunks among the first `n` cells of the container
/// walk.
pub open spec fn removable_below(
    m: Map<(usize, usize), Seq<u8>>,
    rx: i32,
    rz: i32,
    keep: Set<(int, int)>,
    n: int,
) -> nat
    decreases n,
{
    if n <= 0 {
        0
    } else {
        removable_below(m, rx, rz, keep, n - 1) + if removable_cell(m, rx, rz, keep, cell(n - 1)) {
            1nat
        } else {
            0nat
        }
    }
}

/// The chunks a compacted container holds: exactly those that are not
/// removable.
pub open spec fn surviving(
    m: Map<(usize, usize), Seq<u8>>,
    rx: i32,
    rz: i32,
    keep: Set<(int, int)>,
) -> Map<(usize, usize), Seq<u8>> {
    Map::new(
        |p: (usize, usize)| m.dom().contains(p) && !removable_cell(m, rx, rz, keep, p),
        |p: (usize, usize)| m[p],
    )
}

/// Law (fail-safe): a stored chunk whose payload does not decode is never
/// removable and always survives compaction, whatever the keep set.
pub proof fn lemma_undecodable_never_removed(
    m: Map<(usize, usize), Seq<u8>>,
    rx: i32,
    rz: i32,
    keep: Set<(int, int)>,
    p: (usize, usize),
)
    requires
        m.dom().contains(p),
        !decode_ok(m[p]),
    ensures
        !removable_cell(m, rx, rz, keep, p),
        surviving(m, rx, rz, keep).dom().contains(p),
        surviving(m, rx, rz, keep)[p] == m[p],
{
}

/// Law (idempotence): when the keep set covers every chunk the container
/// holds, nothing is removable, so compaction removes zero chunks and leaves
/// the container untouched.
pub proof fn lemma_keep_all_removes_none(
    m: Map<(usize, usize), Seq<u8>>,
    rx: i32,
    rz: i32,
    keep: Set<(int, int)>,
    n: int,
)
    requires
        forall|p: (usize, usize)| #[trigger]
            m.dom().contains(p) ==> keep.contains((rx * 32 + p.0 as int, rz * 32 + p.1 as int)),
    ensures
        removable_below(m, rx, rz, keep, n) == 0,
    decreases n,
{
    if n > 0 {
        lemma_keep_all_removes_none(m, rx, rz, keep, n - 1);
    }
}

/// The map after removing the first `k` listed cells.
spec fn minus_prefix(
    m: Map<(usize, usize), Seq<u8>>,
    s: Seq<(usize, usize)>,
    k: int,
) -> Map<(usize, usize), Seq<u8>>
    decreases k,
{
    if k <= 0 {
        m
    } else {
        minus_prefix(m, s, k - 1).remove(s[k - 1])
    }
}

/// Removing the first `k` listed cells removes exactly those cells.
proof fn lemma_minus_prefix(m: Map<(usize, usize), Seq<u8>>, s: Seq<(usize, usize)>, k: int)
    requires
        0 <= k <= s.len(),
    ensures
        forall|p: (usize, usize)|
            #![trigger minus_prefix(m, s, k).dom().contains(p)]
            minus_prefix(m, s, k).dom().contains(p) <==> m.dom().contains(p) && !s.take(
                k,
            ).contains(p),
        forall|p: (usize, usize)| #[trigger]
            minus_prefix(m, s, k).dom().contains(p) ==> minus_prefix(m, s, k)[p] == m[p],
    decreases k,
{
    if k > 0 {
        lemma_minus_prefix(m, s, k - 1);
        assert forall|p: (usize, usize)|
            minus_prefix(m, s, k).dom().contains(p) == (m.dom().contains(p) && !s.take(
                k,
            ).contains(p)) by {
            assert(minus_prefix(m, s, k) == minus_prefix(m, s, k - 1).remove(s[k - 1]));
            if s.take(k).contains(p) {
                let j = choose|j: int| 0 <= j < k && #[trigger] s.take(k)[j] == p;
                assert(s.take(k)[j] == s[j]);
                if j < k - 1 {
                    assert(s.take(k - 1)[j] == s[j]);
                    assert(s.take(k - 1).contains(p));
                }
            }
            if s.take(k - 1).contains(p) {
                let j = choose|j: int| 0 <= j < k - 1 && #[trigger] s.take(k - 1)[j] == p;
                assert(s.take(k - 1)[j] == s[j]);
                assert(s.take(k)[j] == s[j]);
                assert(s.take(k).contains(p));
            }
            if p == s[k - 1] {
                assert(s.take(k)[k - 1] == s[k - 1]);
                assert(s.take(k).contains(p));
            }
        }
    }
}

/// Why compacting one container failed.  Over in-memory buffers the codec's
/// rewrite steps are total, so the only failure is a stored chunk that
/// cannot be read back.
#[derive(Clone, Copy, PartialEq, Eq, Structural, Debug)]
pub enum CompactError {
    /// A stored chunk could not be read back; the container is left as it
    /// was.
    ChunkRead,
}

/// Compacts one container, given the bytes of its file and its region
/// coordinate: every stored chunk that decodes and whose world coordinate is
/// not in the keep set is removed, and the result is sized to exactly the
/// remaining content.  Returns the number of removed chunks, and the
/// rewritten bytes exactly when at least one chunk was removed.  Bytes that
/// do not open as a container, or whose container header is not sane
/// ([`container_wf_spec`]), are left alone with zero removals; a chunk that
/// cannot be read back aborts this container before anything is rewritten.
#[verifier::loop_isolation(false)]
pub fn compact_region(data: &Vec<u8>, rx: i32, rz: i32, keep: &KeepSet) -> (r: Result<
    (Option<Vec<u8>>, usize),
    CompactError,
>)
    requires
        region_coord_in_range(rx, rz),
    ensures
        !container_wf_spec(data@) || region_parse(data@) is None ==> (r matches Ok(o) && o.0
            is None && o.1 == 0),
        container_wf_spec(data@) ==> (region_parse(data@) matches Some(m) ==> {
            &&& ((region_parse_errs(data@) =~= Set::<(usize, usize)>::empty()) <==> r is Ok)
            &&& (r matches Ok(o) ==> {
                &&& o.1 == removable_below(m, rx, rz, keep@, 1024)
                &&& ((o.1 == 0) <==> o.0 is None)
                &&& (o.0 matches Some(bytes) ==> region_parse(bytes@) == Some(
                    surviving(m, rx, rz, keep@),
                ) && region_parse_errs(bytes@) =~= Set::<(usize, usize)>::empty())
            })
        }),
{
    if !container_wf(data) {
        return Ok((None, 0));
    }
    let mut reg = match region_from_bytes(data) {
        Some(r) => r,
        None => {
            return Ok((None, 0));
        },
    };
    let ghost m = region_model(reg);
    let ghost errs = region_errs(reg);
    let mut to_remove: Vec<(usize, usize)> = Vec::new();
    let mut idx: usize = 0;
    while idx < 1024
        invariant
            idx <= 1024,
            region_wf(reg),
            region_model(reg) == m,
            region_errs(reg) == errs,
            to_remove@.len() == removable_below(m, rx, rz, keep@, idx as int),
            forall|k: int|
                0 <= k < to_remove@.len() ==> removable_cell(
                    m,
                    rx,
                    rz,
                    keep@,
                    #[trigger] to_remove@[k],
                ) && to_remove@[k].0 < 32 && to_remove@[k].1 < 32,
            forall|j: int|
                0 <= j < idx && removable_cell(m, rx, rz, keep@, #[trigger] cell(j))
                    ==> to_remove@.contains(cell(j)),
            forall|j: int| 0 <= j < idx ==> !errs.contains(#[trigger] cell(j)),
        decreases 1024 - idx,
    {
        let x = idx % 32;
        let z = idx / 32;
        assert(cell(idx as int) == (x, z));
        let ghost tr0 = to_remove@;
        let payload_opt = match region_read_chunk(&mut reg, x, z) {
            Ok(p) => p,
            Err(_) => {
                return Err(CompactError::ChunkRead);
            },
        };
        match payload_opt {
            None => {
                assert(!removable_cell(m, rx, rz, keep@, cell(idx as int)));
            },
            Some(payload) => {
                match load_chunk(payload.as_slice()) {
                    Err(_) => {
                        assert(!decode_ok(m[(x, z)]));
                        assert(!removable_cell(m, rx, rz, keep@, cell(idx as int)));
                    },
                    Ok(_) => {
                        let c = chunk_coord(rx, rz, x, z);
                        if !keep.contains(c.0, c.1) {
                            to_remove.push((x, z));
                            assert(removable_cell(m, rx, rz, keep@, cell(idx as int)));
                            proof {
                                assert(forall|k: int|
                                    0 <= k < tr0.len() ==> to_remove@[k] == tr0[k]);
                                assert(to_remove@[tr0.len() as int] == (x, z));
                            }
                        } else {
                            assert(!removable_cell(m, rx, rz, keep@, cell(idx as int)));
                        }
                    },
                }
            },
        }
        proof {
            assert forall|j: int|
                0 <= j < idx + 1 && removable_cell(
                    m,
                    rx,
                    rz,
                    keep@,
                    #[trigger] cell(j),
                ) implies to_remove@.contains(cell(j)) by {
                if j < idx {
                    assert(tr0.contains(cell(j)));
                    let k = choose|k: int| 0 <= k < tr0.len() && tr0[k] == cell(j);
                    assert(to_remove@[k] == cell(j));
                } else {
                    assert(to_remove@[to_remove@.len() - 1] == cell(j));
                }
            }
        }
        idx = idx + 1;
    }
    proof {
        assert(errs =~= Set::<(usize, usize)>::empty()) by {
            assert forall|p: (usize, usize)| !(#[trigger] errs.contains(p)) by {
                if errs.contains(p) {
                    let j: int = p.1 * 32 + p.0;
                    assert(cell(j) == p) by (nonlinear_arith)
                        requires
                            p.0 < 32,
                            p.1 < 32,
                            j == p.1 * 32 + p.0,
                    ;
                    assert(0 <= j < 1024);
                }
            }
        }
    }
    if to_remove.len() == 0 {
        return Ok((None, 0));
    }
    let ghost s = to_remove@;
    let n = to_remove.len();
    let mut k: usize = 0;
    while k < n
        invariant
            k <= n,
            n == s.len(),
            to_remove@ == s,
            region_wf(reg),
            region_model(reg) == minus_prefix(m, s, k as int),
            region_errs(reg) =~= Set::<(usize, usize)>::empty(),
        decreases n - k,
    {
        let p = to_remove[k];
        match region_remove_chunk(&mut reg, p.0, p.1) {
            Ok(u) => u,
            Err(_) => {
                proof {
                    assert(false);
                }
            },
        };
        proof {
            assert(region_errs(reg) =~= Set::<(usize, usize)>::empty());
        }
        k = k + 1;
    }
    proof {
        lemma_minus_prefix(m, s, s.len() as int);
        assert(s.take(s.len() as int) =~= s);
        assert(region_model(reg) =~= surviving(m, rx, rz, keep@)) by {
            assert forall|p: (usize, usize)|
                minus_prefix(m, s, s.len() as int).dom().contains(p) == surviving(
                    m,
                    rx,
                    rz,
                    keep@,
                ).dom().contains(p) by {
                if m.dom().contains(p) {
                    if s.contains(p) {
                        let k0 = choose|k0: int| 0 <= k0 < s.len() && s[k0] == p;
                        assert(removable_cell(m, rx, rz, keep@, s[k0]));
                    }
                    if removable_cell(m, rx, rz, keep@, p) {
                        let j: int = p.1 * 32 + p.0;
                        assert(cell(j) == p) by (nonlinear_arith)
                            requires
                                p.0 < 32,
                                p.1 < 32,
                                j == p.1 * 32 + p.0,
                        ;
                        assert(0 <= j < 1024);
                        assert(s.contains(cell(j)));
                    }
                }
            }
        }
    }
    let bytes = match region_into_bytes(reg) {
        Ok(b) => b,
        Err(_) => {
            proof {
                assert(false);
            }
            Vec::new()
        },
    };
    Ok((Some(bytes), n))
}

/// Whether some listed boundary point lies within the squared buffer
/// distance of `(x, z)`.
fn within_buffer(x: i32, z: i32, boundary: &Vec<(i32, i32)>, buffer_sq: u64) -> (b: bool)
    ensures
        b == exists|k: int|
            0 <= k < boundary@.len() && sq_dist(
                (x as int, z as int),
                pair_int(#[trigger] boundary@[k]),
            ) <= buffer_sq,
{
    let n = boundary.len();
    let mut i: usize = 0;
    while i < n
        invariant
            n == boundary@.len(),
            forall|k: int|
                0 <= k < i ==> sq_dist((x as int, z as int), pair_int(#[trigger] boundary@[k]))
                    > buffer_sq,
        decreases n - i,
    {
        let b = boundary[i];
        let dx = x as i128 - b.0 as i128;
        let dz = z as i128 - b.1 as i128;
        proof {
            assert(0 <= dx * dx <= 0x1_0000_0000i128 * 0x1_0000_0000i128) by (nonlinear_arith)
                requires
                    -0x1_0000_0000i128 <= dx <= 0x1_0000_0000i128,
            ;
            assert(0 <= dz * dz <= 0x1_0000_0000i128 * 0x1_0000_0000i128) by (nonlinear_arith)
                requires
                    -0x1_0000_0000i128 <= dz <= 0x1_0000_0000i128,
            ;
        }
        let d2 = dx * dx + dz * dz;
        if d2 <= buffer_sq as i128 {
            assert(sq_dist((x as int, z as int), pair_int(boundary@[i as int])) <= buffer_sq);
            return true;
        }
        i = i + 1;
    }
    false
}

/// Computes the keep set from the activity index and the boundary of the
/// active terrain: every active coordinate unconditionally, plus every
/// tracked inactive coordinate within the squared buffer distance of some
/// boundary point.
pub fn compute_keep_set(
    ages: &ActivityIndex,
    boundary: &Vec<(i32, i32)>,
    inhabited_under: u64,
    buffer_sq: u64,
) -> (r: KeepSet)
    requires
        ages.wf(),
        forall|k: int|
            0 <= k < boundary@.len() ==> is_boundary(
                ages@,
                inhabited_under,
                pair_int(#[trigger] boundary@[k]),
            ),
        forall|c: (i32, i32)|
            is_boundary(ages@, inhabited_under, pair_int(c)) ==> #[trigger] boundary@.contains(c),
    ensures
        r.wf(),
        forall|c: (int, int)| #[trigger]
            r@.contains(c) <==> kept(ages@, inhabited_under, buffer_sq, c),
{
    proof {
        lemma_entries_map_props(ages.entries@);
    }
    let mut r = KeepSet::new();
    let n = ages.entries.len();
    let mut i: usize = 0;
    while i < n
        invariant
            ages.wf(),
            r.wf(),
            n == ages.entries@.len(),
            i <= n,
            forall|k: int|
                0 <= k < boundary@.len() ==> is_boundary(
                    ages@,
                    inhabited_under,
                    pair_int(#[trigger] boundary@[k]),
                ),
            forall|c: (i32, i32)|
                is_boundary(ages@, inhabited_under, pair_int(c)) ==> #[trigger] boundary@.contains(
                    c,
                ),
            forall|c: (int, int)| #[trigger]
                r@.contains(c) ==> kept(ages@, inhabited_under, buffer_sq, c),
            forall|j: int|
                0 <= j < i && kept(ages@, inhabited_under, buffer_sq, pair_int(ages.entries@[j].0))
                    ==> r@.contains(pair_int(#[trigger] ages.entries@[j].0)),
        decreases n - i,
    {
        let e = ages.entries[i];
        let c = e.0;
        let ghost pc = pair_int(c);
        proof {
            lemma_entries_map_props(ages.entries@);
            assert(ages@.dom().contains(pc));
            assert(ages@[pc] == e.1);
        }
        if e.1 >= inhabited_under {
            r.insert(c.0, c.1);
            assert(kept(ages@, inhabited_under, buffer_sq, pc));
        } else {
            if within_buffer(c.0, c.1, boundary, buffer_sq) {
                proof {
                    let k = choose|k: int|
                        0 <= k < boundary@.len() && sq_dist(pc, pair_int(boundary@[k]))
                            <= buffer_sq;
                    assert(is_boundary(ages@, inhabited_under, pair_int(boundary@[k])));
                    assert(kept(ages@, inhabited_under, buffer_sq, pc));
                }
                r.insert(c.0, c.1);
            } else {
                proof {
                    if kept(ages@, inhabited_under, buffer_sq, pc) {
                        let b = choose|b: (int, int)| #[trigger]
                            is_boundary(ages@, inhabited_under, b) && sq_dist(pc, b) <= buffer_sq;
                        ages.lemma_dom_bounds();
                        let bc = (b.0 as i32, b.1 as i32);
                        assert(pair_int(bc) == b);
                        assert(boundary@.contains(bc));
                        let k = choose|k: int| 0 <= k < boundary@.len() && boundary@[k] == bc;
                        assert(sq_dist(pc, pair_int(boundary@[k])) <= buffer_sq);
                        assert(false);
                    }
                }
            }
        }
        i = i + 1;
    }
    proof {
        assert forall|c: (int, int)|
            kept(ages@, inhabited_under, buffer_sq, c) implies #[trigger] r@.contains(c) by {
            lemma_entries_map_props(ages.entries@);
            ages.lemma_dom_bounds();
            let j = choose|j: int|
                0 <= j < ages.entries@.len() && pair_int(ages.entries@[j].0) == c;
        }
    }
    r
}

/// One container file handed to the pipeline: its name stem and its bytes.
pub struct RegionSource {
    /// File name without directory and extension; the region coordinates
    /// are embedded in it as the second and third dot-separated pieces.
    pub stem: String,
    /// The file's bytes.
    pub data: Vec<u8>,
}

/// The UTF-8 bytes of a container's name stem.
pub open spec fn stem_bytes(f: RegionSource) -> Seq<u8> {
    vstd::utf8::encode_utf8(f.stem@)
}

/// The activity entries one container contributes among its first `n` walk
/// cells: one entry per stored chunk that decodes, at the chunk's world
/// coordinate, with its decoded inhabited time.
pub open spec fn file_cell_entries(
    m: Map<(usize, usize), Seq<u8>>,
    rx: i32,
    rz: i32,
    n: int,
) -> Map<(int, int), u64>
    decreases n,
{
    if n <= 0 {
        Map::empty()
    } else {
        let prev = file_cell_entries(m, rx, rz, n - 1);
        let p = cell(n - 1);
        if m.dom().contains(p) && decode_ok(m[p]) {
            prev.insert((rx * 32 + p.0 as int, rz * 32 + p.1 as int), decoded_inhabited(m[p]))
        } else {
            prev
        }
    }
}

/// The activity entries one container contributes to the index: nothing at
/// all when its name does not carry usable coordinates, when its header is
/// not sane, when it does not open, or when any stored chunk fails to read
/// back (all-or-nothing per container); otherwise one entry per stored
/// chunk that decodes.
pub open spec fn file_entries(f: RegionSource) -> Map<(int, int), u64> {
    match parse_region_stem_spec(stem_bytes(f)) {
        None => Map::empty(),
        Some(rc) => {
            if !region_coord_in_range(rc.0, rc.1) || !container_wf_spec(f.data@) {
                Map::empty()
            } else {
                match region_parse(f.data@) {
                    None => Map::empty(),
                    Some(m) => {
                        if region_parse_errs(f.data@) == Set::<(usize, usize)>::empty() {
                            file_cell_entries(m, rc.0, rc.1, 1024)
                        } else {
                            Map::empty()
                        }
                    },
                }
            }
        },
    }
}

/// The activity index after the first `n` containers, merged in order; on a
/// coordinate collision between containers (a naming-convention violation)
/// the later container wins.
pub open spec fn index_upto(files: Seq<RegionSource>, n: int) -> Map<(int, int), u64>
    decreases n,
{
    if n <= 0 {
        Map::empty()
    } else {
        index_upto(files, n - 1).union_prefer_right(file_entries(files[n - 1]))
    }
}

/// Law: a coordinate one container records survives the merge unchanged as
/// long as no later container claims the same coordinate — which the naming
/// convention guarantees, since distinct containers cover disjoint
/// coordinate ranges.  In particular a chunk at local offset `(lx, lz)` of
/// region `(rx, rz)` is indexed at world coordinate
/// `(rx·32 + lx, rz·32 + lz)` with its decoded inhabited time.
pub proof fn lemma_index_merge_disjoint(files: Seq<RegionSource>, n: int, i: int, c: (int, int))
    requires
        0 <= i < n <= files.len(),
        file_entries(files[i]).dom().contains(c),
        forall|j: int| i < j < n ==> !file_entries(#[trigger] files[j]).dom().contains(c),
    ensures
        index_upto(files, n).dom().contains(c),
        index_upto(files, n)[c] == file_entries(files[i])[c],
    decreases n,
{
    if i < n - 1 {
        lemma_index_merge_disjoint(files, n - 1, i, c);
    }
}

/// Law (fail-safe, across containers): every coordinate the merged index
/// tracks was contributed by some container, and by
/// [`lemma_file_entries_only_decoded`] each container contributes only the
/// coordinates of chunks that decode — so a chunk whose decode fails never
/// enters the index, and by [`lemma_untracked_not_boundary`] never yields a
/// boundary point, whatever the file list, threshold or buffer.
pub proof fn lemma_index_entries_from_some_file(files: Seq<RegionSource>, n: int, c: (int, int))
    requires
        index_upto(files, n).dom().contains(c),
    ensures
        exists|i: int| 0 <= i < n && file_entries(#[trigger] files[i]).dom().contains(c),
    decreases n,
{
    if n > 0 {
        if file_entries(files[n - 1]).dom().contains(c) {
        } else {
            lemma_index_entries_from_some_file(files, n - 1, c);
        }
    }
}

/// Builds the activity index: scans every container independently,
/// records coordinate → inhabited time for every chunk that decodes, skips
/// chunks that fail to decode, and lets a container that cannot be opened or
/// read contribute nothing without aborting the run.
#[verifier::loop_isolation(false)]
pub fn build_activity_index(files: &Vec<RegionSource>) -> (r: ActivityIndex)
    ensures
        r.wf(),
        r@ == index_upto(files@, files@.len() as int),
{
    let mut index = ActivityIndex::new();
    let nf = files.len();
    let mut i: usize = 0;
    while i < nf
        invariant
            index.wf(),
            index@ == index_upto(files@, i as int),
            i <= nf == files@.len(),
        decreases nf - i,
    {
        let f = &files[i];
        let ghost fe = file_entries(files@[i as int]);
        match parse_region_stem(f.stem.as_str()) {
            None => {
                proof {
                    assert(index@ =~= index_upto(files@, i + 1));
                }
            },
            Some(rc) => {
                let (rx, rz) = rc;
                if rx < crate::coords::REGION_COORD_MIN || rx > crate::coords::REGION_COORD_MAX
                    || rz < crate::coords::REGION_COORD_MIN || rz
                    > crate::coords::REGION_COORD_MAX {
                    proof {
                        assert(index@ =~= index_upto(files@, i + 1));
                    }
                } else if !container_wf(&f.data) {
                    proof {
                        assert(index@ =~= index_upto(files@, i + 1));
                    }
                } else {
                    match region_from_bytes(&f.data) {
                        None => {
                            proof {
                                assert(index@ =~= index_upto(files@, i + 1));
                            }
                        },
                        Some(mut reg) => {
                            let ghost m = region_model(reg);
                            let ghost errs = region_errs(reg);
                            let mut has_err = false;
                            let mut idx: usize = 0;
                            while idx < 1024
                                invariant
                                    idx <= 1024,
                                    region_wf(reg),
                                    region_model(reg) == m,
                                    region_errs(reg) == errs,
                                    !has_err ==> forall|j: int|
                                        0 <= j < idx ==> !errs.contains(#[trigger] cell(j)),
                                    has_err ==> errs != Set::<(usize, usize)>::empty(),
                                decreases 1024 - idx,
                            {
                                let x = idx % 32;
                                let z = idx / 32;
                                assert(cell(idx as int) == (x, z));
                                match region_read_chunk(&mut reg, x, z) {
                                    Ok(_) => {},
                                    Err(_) => {
                                        proof {
                                            assert(errs.contains((x, z)));
                                            assert(!Set::<(usize, usize)>::empty().contains(
                                                (x, z),
                                            ));
                                        }
                                        has_err = true;
                                    },
                                }
                                idx = idx + 1;
                            }
                            if has_err {
                                proof {
                                    assert(index@ =~= index_upto(files@, i + 1));
                                }
                            } else {
                                proof {
                                    assert(errs =~= Set::<(usize, usize)>::empty()) by {
                                        assert forall|p: (usize, usize)|
                                            !(#[trigger] errs.contains(p)) by {
                                            if errs.contains(p) {
                                                let j: int = p.1 * 32 + p.0;
                                                assert(cell(j) == p) by (nonlinear_arith)
                                                    requires
                                                        p.0 < 32,
                                                        p.1 < 32,
                                                        j == p.1 * 32 + p.0,
                                                ;
                                                assert(0 <= j < 1024);
                                            }
                                        }
                                    }
                                    assert(fe == file_cell_entries(m, rx, rz, 1024));
                                }
                                let ghost g0 = index@;
                                let mut idx2: usize = 0;
                                while idx2 < 1024
                                    invariant
                                        idx2 <= 1024,
                                        region_wf(reg),
                                        region_model(reg) == m,
                                        region_errs(reg) == errs,
                                        index.wf(),
                                        index@ == g0.union_prefer_right(
                                            file_cell_entries(m, rx, rz, idx2 as int),
                                        ),
                                    decreases 1024 - idx2,
                                {
                                    let x = idx2 % 32;
                                    let z = idx2 / 32;
                                    assert(cell(idx2 as int) == (x, z));
                                    let ghost before = index@;
                                    match region_read_chunk(&mut reg, x, z) {
                                        Ok(Some(payload)) => {
                                            match load_chunk(payload.as_slice()) {
                                                Ok(c) => {
                                                    let wc = chunk_coord(rx, rz, x, z);
                                                    index.upsert(wc.0, wc.1, c.inhabited_time);
                                                    proof {
                                                        assert(index@ =~= g0.union_prefer_right(
                                                            file_cell_entries(
                                                                m,
                                                                rx,
                                                                rz,
                                                                idx2 + 1,
                                                            ),
                                                        ));
                                                    }
                                                },
                                                Err(_) => {
                                                    assert(!decode_ok(m[(x, z)]));
                                                },
                                            }
                                        },
                                        Ok(None) => {},
                                        Err(_) => {
                                            proof {
                                                assert(false);
                                            }
                                        },
                                    }
                                    idx2 = idx2 + 1;
                                }
                                proof {
                                    assert(index@ == index_upto(files@, i + 1));
                                }
                            }
                        },
                    }
                }
            },
        }
        i = i + 1;
    }
    index
}

/// Law (fail-safe): the activity entries of one container only ever track
/// the world coordinate of a stored chunk that decodes; a chunk whose decode
/// fails is omitted, never recorded as duration zero.
pub proof fn lemma_file_entries_only_decoded(
    m: Map<(usize, usize), Seq<u8>>,
    rx: i32,
    rz: i32,
    n: int,
    c: (int, int),
)
    requires
        file_cell_entries(m, rx, rz, n).dom().contains(c),
    ensures
        exists|p: (usize, usize)| #[trigger]
            m.dom().contains(p) && decode_ok(m[p]) && c == (
                rx * 32 + p.0 as int,
                rz * 32 + p.1 as int,
            ),
    decreases n,
{
    if n > 0 {
        let p = cell(n - 1);
        if m.dom().contains(p) && decode_ok(m[p]) && c == (
            rx * 32 + p.0 as int,
            rz * 32 + p.1 as int,
        ) {
        } else {
            assert(file_cell_entries(m, rx, rz, n - 1).dom().contains(c));
            lemma_file_entries_only_decoded(m, rx, rz, n - 1, c);
        }
    }
}

/// Law: with no boundary point at all, the buffer clause never applies and
/// the keep decision retains exactly the active coordinates.
pub proof fn lemma_no_boundary_keeps_active_only(
    ages: Map<(int, int), u64>,
    thr: u64,
    bsq: u64,
    c: (int, int),
)
    requires
        forall|b: (int, int)| !is_boundary(ages, thr, b),
    ensures
        kept(ages, thr, bsq, c) <==> active(ages, thr, c),
{
}

/// What happened to one container during the destructive phase.
#[derive(Debug)]
pub enum FileOutcome {
    /// The file name does not carry the two region coordinates.
    BadName,
    /// The name parsed, but the coordinates are too large for chunk
    /// arithmetic.
    NameOutOfRange,
    /// The container was processed; the rewritten bytes are present exactly
    /// when at least one chunk was removed.
    Done { pruned: usize, rewritten: Option<Vec<u8>> },
    /// Compaction of this container failed (a stored chunk could not be
    /// read back); no other container is affected.
    Failed(CompactError),
}

/// Sum of the per-container removal counts.
pub open spec fn sum_pruned(os: Seq<FileOutcome>) -> int
    decreases os.len(),
{
    if os.len() == 0 {
        0
    } else {
        sum_pruned(os.drop_last()) + match os.last() {
            FileOutcome::Done { pruned, .. } => pruned as int,
            _ => 0,
        }
    }
}

/// The set of coordinates the keep decision retains.
pub open spec fn keep_set_spec(ages: Map<(int, int), u64>, thr: u64, bsq: u64) -> Set<(int, int)> {
    Set::new(|c: (int, int)| kept(ages, thr, bsq, c))
}

/// The outcome the pipeline owes for one container, given the keep set;
/// exact in every case.  A container whose header is not sane counts as
/// one that does not open.
pub open spec fn outcome_spec(f: RegionSource, keep: Set<(int, int)>, o: FileOutcome) -> bool {
    match parse_region_stem_spec(stem_bytes(f)) {
        None => o is BadName,
        Some(rc) => {
            if !region_coord_in_range(rc.0, rc.1) {
                o is NameOutOfRange
            } else if !container_wf_spec(f.data@) {
                o matches FileOutcome::Done { pruned, rewritten } && pruned == 0 && rewritten
                    is None
            } else {
                match region_parse(f.data@) {
                    None => (o matches FileOutcome::Done { pruned, rewritten } && pruned == 0
                        && rewritten is None),
                    Some(m) => {
                        if region_parse_errs(f.data@) != Set::<(usize, usize)>::empty() {
                            o == FileOutcome::Failed(CompactError::ChunkRead)
                        } else {
                            let rm = removable_below(m, rc.0, rc.1, keep, 1024);
                            if rm == 0 {
                                o matches FileOutcome::Done { pruned, rewritten } && pruned == 0
                                    && rewritten is None
                            } else {
                                o matches FileOutcome::Done { pruned, rewritten } && pruned == rm
                                    && (rewritten matches Some(bytes) && region_parse(bytes@)
                                    == Some(surviving(m, rc.0, rc.1, keep)))
                            }
                        }
                    },
                }
            }
        },
    }
}

/// Counts and per-container outcomes of one pipeline run.
pub struct PruneReport {
    /// Coordinates the activity index recorded.
    pub chunks_indexed: usize,
    /// Boundary points of the active terrain.
    pub boundary_count: usize,
    /// Coordinates the keep decision retains.
    pub kept_count: usize,
    /// Chunks removed over all containers (saturating).
    pub total_pruned: u64,
    /// One outcome per container, in input order.
    pub outcomes: Vec<FileOutcome>,
}

/// The whole pipeline over in-memory containers: builds the activity index
/// from every readable container, derives the boundary and the keep set
/// (all read-only), and only then compacts each container independently
/// against that one keep set.  One container's failure never discards
/// another's result.
#[verifier::loop_isolation(false)]
pub fn prune(files: &Vec<RegionSource>, inhabited_under: u64, buffer_sq: u64) -> (r: PruneReport)
    ensures
        ({
            let ages = index_upto(files@, files@.len() as int);
            let keep = keep_set_spec(ages, inhabited_under, buffer_sq);
            &&& r.outcomes@.len() == files@.len()
            &&& forall|i: int|
                0 <= i < files@.len() ==> outcome_spec(
                    files@[i],
                    keep,
                    #[trigger] r.outcomes@[i],
                )
            &&& r.chunks_indexed == ages.dom().len()
            &&& r.boundary_count == Set::new(
                |c: (int, int)| is_boundary(ages, inhabited_under, c),
            ).len()
            &&& r.kept_count == keep.len()
            &&& r.total_pruned as int == if sum_pruned(r.outcomes@) <= u64::MAX as int {
                sum_pruned(r.outcomes@)
            } else {
                u64::MAX as int
            }
        }),
{
    let ages = build_activity_index(files);
    let ghost ages_spec = index_upto(files@, files@.len() as int);
    let chunks_indexed = ages.len();
    let boundary = compute_boundary(&ages, inhabited_under);
    proof {
        assert(pairs_set(boundary@) =~= Set::new(
            |c: (int, int)| is_boundary(ages_spec, inhabited_under, c),
        )) by {
            assert forall|c: (int, int)| pairs_set(boundary@).contains(c) implies is_boundary(
                ages_spec,
                inhabited_under,
                c,
            ) by {
                let k = choose|k: int|
                    0 <= k < boundary@.len() && pair_int(#[trigger] boundary@[k]) == c;
            }
            assert forall|c: (int, int)|
                is_boundary(ages_spec, inhabited_under, c) implies pairs_set(boundary@).contains(
                c,
            ) by {
                ages.lemma_dom_bounds();
                let ci = (c.0 as i32, c.1 as i32);
                assert(pair_int(ci) == c);
                assert(boundary@.contains(ci));
                let k = choose|k: int| 0 <= k < boundary@.len() && boundary@[k] == ci;
                assert(pair_int(boundary@[k]) == c);
            }
        }
        lemma_pairs_set_card(boundary@);
    }
    let boundary_count = boundary.len();
    let keep = compute_keep_set(&ages, &boundary, inhabited_under, buffer_sq);
    proof {
        assert(keep@ =~= keep_set_spec(ages_spec, inhabited_under, buffer_sq));
    }
    let kept_count = keep.len();
    let nf = files.len();
    let mut outcomes: Vec<FileOutcome> = Vec::new();
    let mut total: u64 = 0;
    let mut i: usize = 0;
    while i < nf
        invariant
            i <= nf == files@.len(),
            outcomes@.len() == i,
            keep@ == keep_set_spec(ages_spec, inhabited_under, buffer_sq),
            forall|j: int|
                0 <= j < i ==> outcome_spec(files@[j], keep@, #[trigger] outcomes@[j]),
            total as int == if sum_pruned(outcomes@) <= u64::MAX as int {
                sum_pruned(outcomes@)
            } else {
                u64::MAX as int
            },
        decreases nf - i,
    {
        let f = &files[i];
        let ghost out0 = outcomes@;
        let mut added: u64 = 0;
        let o: FileOutcome = match parse_region_stem(f.stem.as_str()) {
            None => FileOutcome::BadName,
            Some(rc) => {
                let (rx, rz) = rc;
                if rx < crate::coords::REGION_COORD_MIN || rx > crate::coords::REGION_COORD_MAX
                    || rz < crate::coords::REGION_COORD_MIN || rz
                    > crate::coords::REGION_COORD_MAX {
                    FileOutcome::NameOutOfRange
                } else {
                    match compact_region(&f.data, rx, rz, &keep) {
                        Ok(res) => {
                            let (rewritten, pruned) = res;
                            added = pruned as u64;
                            FileOutcome::Done { pruned, rewritten }
                        },
                        Err(e) => FileOutcome::Failed(e),
                    }
                }
            },
        };
        proof {
            assert(outcome_spec(files@[i as int], keep@, o));
        }
        outcomes.push(o);
        total = if total <= u64::MAX - added {
            total + added
        } else {
            u64::MAX
        };
        proof {
            assert(outcomes@.drop_last() =~= out0);
        }
        i = i + 1;
    }
    PruneReport { chunks_indexed, boundary_count, kept_count, total_pruned: total, outcomes }
}

} // verus!
