//! The balanced spatial tree collaborator of the two neighbor indexes.
//!
//! rstar's `RTree` holds the point records of the point neighbor index and
//! the segment records of the shape neighbor index. Coordinates are stored
//! as `i64` microdegrees, so the tree's distance arithmetic stays exact and
//! free of overflow for in-range coordinates. The contents of each tree are
//! named as a multiset of plain records ([`pt_items`], [`seg_items`]); every
//! method the indexes call stands behind a trusted wrapper stated over those
//! names.
//!
//! For point records the tree's squared distance is exactly the planar
//! squared Euclidean distance [`crate::coords::pt_dist2`]. For segment
//! records it is rstar's `Line` point-to-segment distance, which on integer
//! coordinates truncates the projection onto the segment; that deterministic
//! function of the endpoints and the query point is named [`seg_dist2`].
//! The `Line` metric divides by the segment's squared length, so the query
//! wrappers require every stored segment to be proper: endpoints distinct
//! (see [`seg_proper`]); on a degenerate segment the division has no result.

use vstd::prelude::*;
use vstd::multiset::Multiset;
use crate::coords::coord_ok;
use crate::coords::pt_dist2;
use crate::coords::TreePoint;
use rstar::primitives::GeomWithData;
use rstar::primitives::Line;
use rstar::RTree;

verus! {

/// The tree of the point neighbor index: 2D integer points tagged with
/// feature ids, held opaquely in an rstar `RTree`.
#[verifier::external_body]
pub struct PointTree {
    tree: RTree<GeomWithData<[i64; 2], u32>>,
}

/// The tree of the shape neighbor index: line segments tagged with feature
/// ids, held opaquely in an rstar `RTree`.
#[verifier::external_body]
pub struct ShapeTree {
    tree: RTree<GeomWithData<Line<[i64; 2]>, u32>>,
}

/// The point records a point tree holds, as `(latitude, longitude, id)`
/// microdegree triples.
pub uninterp spec fn pt_items(t: PointTree) -> Multiset<(i32, i32, u32)>;

/// The segment records a shape tree holds, as
/// `(a latitude, a longitude, b latitude, b longitude, id)` tuples of
/// microdegrees.
pub uninterp spec fn seg_items(t: ShapeTree) -> Multiset<(i32, i32, i32, i32, u32)>;

/// The squared distance rstar's `Line` computes between the segment from
/// `(ax, ay)` to `(bx, by)` and the point `(px, py)`: a deterministic
/// function of the five raw coordinate values alone.
pub uninterp spec fn seg_dist2(ax: i32, ay: i32, bx: i32, by: i32, px: i32, py: i32) -> int;

/// Whether every point record of `m` is in coordinate range.
pub open spec fn pt_all_in_range(m: Multiset<(i32, i32, u32)>) -> bool {
    forall|e: (i32, i32, u32)| #[trigger]
        m.contains(e) ==> coord_ok(e.0 as int, e.1 as int)
}

/// Whether every segment record of `m` has both endpoints in coordinate
/// range.
pub open spec fn seg_all_in_range(m: Multiset<(i32, i32, i32, i32, u32)>) -> bool {
    forall|s: (i32, i32, i32, i32, u32)| #[trigger]
        m.contains(s) ==> coord_ok(s.0 as int, s.1 as int) && coord_ok(s.2 as int, s.3 as int)
}

/// Whether a segment record is proper: its two endpoints differ. rstar's
/// integer `Line` distance divides by the segment's squared length, which
/// is zero for a degenerate segment, so the shape index never stores one.
pub open spec fn seg_proper(s: (i32, i32, i32, i32, u32)) -> bool {
    s.0 != s.2 || s.1 != s.3
}

/// Whether every segment record of `m` is proper.
pub open spec fn seg_all_proper(m: Multiset<(i32, i32, i32, i32, u32)>) -> bool {
    forall|s: (i32, i32, i32, i32, u32)| #[trigger] m.contains(s) ==> seg_proper(s)
}

/// The squared Euclidean distance from a point record to a query point.
pub open spec fn pt_record_dist2(e: (i32, i32, u32), px: int, py: int) -> int {
    pt_dist2(e.0 as int, e.1 as int, px, py)
}

/// The named segment distance from a segment record to a query point.
pub open spec fn seg_record_dist2(s: (i32, i32, i32, i32, u32), px: i32, py: i32) -> int {
    seg_dist2(s.0, s.1, s.2, s.3, px, py)
}

/// Whether `e` is a record of `m` at minimal squared distance from the
/// query point.
pub open spec fn pt_min_at(
    m: Multiset<(i32, i32, u32)>,
    px: int,
    py: int,
    e: (i32, i32, u32),
) -> bool {
    &&& m.contains(e)
    &&& forall|f: (i32, i32, u32)| #[trigger]
        m.contains(f) ==> pt_record_dist2(e, px, py) <= pt_record_dist2(f, px, py)
}

/// Whether a nearest-point query over `m` may answer `id`: some record at
/// minimal distance carries it.
pub open spec fn pt_nearest_ok(m: Multiset<(i32, i32, u32)>, px: int, py: int, id: u32) -> bool {
    exists|e: (i32, i32, u32)| #[trigger] pt_min_at(m, px, py, e) && e.2 == id
}

/// Whether `s` is a segment record of `m` at minimal named distance from
/// the query point.
pub open spec fn seg_min_at(
    m: Multiset<(i32, i32, i32, i32, u32)>,
    px: i32,
    py: i32,
    s: (i32, i32, i32, i32, u32),
) -> bool {
    &&& m.contains(s)
    &&& forall|f: (i32, i32, i32, i32, u32)| #[trigger]
        m.contains(f) ==> seg_record_dist2(s, px, py) <= seg_record_dist2(f, px, py)
}

/// Whether a nearest-shape query over `m` may answer `id`: some segment at
/// minimal distance carries it.
pub open spec fn seg_nearest_ok(
    m: Multiset<(i32, i32, i32, i32, u32)>,
    px: i32,
    py: i32,
    id: u32,
) -> bool {
    exists|s: (i32, i32, i32, i32, u32)| #[trigger] seg_min_at(m, px, py, s) && s.4 == id
}

/// Whether the sequence `s` is sorted by non-decreasing squared distance
/// from the query point.
pub open spec fn pt_dist_sorted(s: Seq<(i32, i32, u32)>, px: int, py: int) -> bool {
    forall|i: int, j: int|
        0 <= i < j < s.len() ==> #[trigger] pt_record_dist2(s[i], px, py) <= #[trigger]
            pt_record_dist2(s[j], px, py)
}

/// Whether `s` enumerates, in non-decreasing distance order, the `k`
/// records of `m` closest to the query point: it draws from `m` without
/// reuse, stops at `k` records (all of them when `k` is not smaller than
/// the tree), and omits only records at least as far as its last entry.
pub open spec fn pt_ranked(
    m: Multiset<(i32, i32, u32)>,
    px: int,
    py: int,
    k: int,
    s: Seq<(i32, i32, u32)>,
) -> bool {
    &&& s.len() == if k <= m.len() {
        k
    } else {
        m.len() as int
    }
    &&& s.to_multiset().subset_of(m)
    &&& pt_dist_sorted(s, px, py)
    &&& (k >= m.len() ==> s.to_multiset() == m)
    &&& (forall|f: (i32, i32, u32)| #[trigger]
        m.sub(s.to_multiset()).contains(f) && s.len() > 0 ==> pt_record_dist2(
            s[s.len() - 1],
            px,
            py,
        ) <= pt_record_dist2(f, px, py))
}

/// Whether `ids` is the id projection of some ranked enumeration (see
/// [`pt_ranked`]) of the `k` records of `m` closest to the query point.
pub open spec fn pt_ranked_ids(
    m: Multiset<(i32, i32, u32)>,
    px: int,
    py: int,
    k: int,
    ids: Seq<u32>,
) -> bool {
    exists|s: Seq<(i32, i32, u32)>|
        #[trigger] pt_ranked(m, px, py, k, s) && ids.len() == s.len() && (forall|i: int|
            0 <= i < s.len() ==> ids[i] == s[i].2)
}

/// Whether some segment record of `m` carries `id` and lies within squared
/// distance `d2` of the query point.
pub open spec fn seg_within_ok(
    m: Multiset<(i32, i32, i32, i32, u32)>,
    px: i32,
    py: i32,
    d2: int,
    id: u32,
) -> bool {
    exists|s: (i32, i32, i32, i32, u32)|
        #[trigger] m.contains(s) && s.4 == id && seg_record_dist2(s, px, py) <= d2
}

/// Relies on rstar's `RTree::bulk_load`: the loaded tree holds exactly the
/// given records.
#[verifier::external_body]
pub(crate) fn pt_tree_build(points: Vec<TreePoint>) -> (t: PointTree)
    ensures
        pt_items(t) == points@.map_values(|p: TreePoint| (p.0, p.1, p.2)).to_multiset(),
{
    let items: Vec<GeomWithData<[i64; 2], u32>> = points
        .into_iter()
        .map(|p| GeomWithData::new([p.0 as i64, p.1 as i64], p.2))
        .collect();
    PointTree { tree: RTree::bulk_load(items) }
}

/// Relies on rstar's `RTree::nearest_neighbor`: of a nonempty tree it
/// returns an element whose squared Euclidean distance to the query point
/// is minimal; of an empty tree it returns nothing.
#[verifier::external_body]
pub(crate) fn pt_tree_nearest(t: &PointTree, px: i32, py: i32) -> (r: Option<u32>)
    requires
        coord_ok(px as int, py as int),
        pt_all_in_range(pt_items(*t)),
    ensures
        r is None <==> pt_items(*t) == Multiset::<(i32, i32, u32)>::empty(),
        r matches Some(id) ==> pt_nearest_ok(pt_items(*t), px as int, py as int, id),
{
    t.tree.nearest_neighbor([px as i64, py as i64]).map(|g| g.data)
}

/// Relies on rstar's `RTree::nearest_neighbor_iter`: it yields every
/// element of the tree in non-decreasing distance order; the first `k`
/// data tags are collected.
#[verifier::external_body]
pub(crate) fn pt_tree_nearest_k(t: &PointTree, px: i32, py: i32, k: usize) -> (r: Vec<u32>)
    requires
        coord_ok(px as int, py as int),
        pt_all_in_range(pt_items(*t)),
    ensures
        pt_ranked_ids(pt_items(*t), px as int, py as int, k as int, r@),
{
    t.tree.nearest_neighbor_iter([px as i64, py as i64]).map(|g| g.data).take(k).collect()
}

/// Relies on rstar's `RTree::new`: a new tree is empty.
#[verifier::external_body]
pub(crate) fn seg_tree_new() -> (t: ShapeTree)
    ensures
        seg_items(t) == Multiset::<(i32, i32, i32, i32, u32)>::empty(),
{
    ShapeTree { tree: RTree::new() }
}

/// Relies on rstar's `RTree::insert`: it adds exactly the given element.
#[verifier::external_body]
pub(crate) fn seg_tree_insert(t: &mut ShapeTree, ax: i32, ay: i32, bx: i32, by: i32, id: u32)
    ensures
        seg_items(*final(t)) == seg_items(*old(t)).insert((ax, ay, bx, by, id)),
{
    t.tree.insert(GeomWithData::new(Line::new([ax as i64, ay as i64], [bx as i64, by as i64]), id));
}

/// Whether some segment record of `m` carries `id` and lies at exactly the
/// squared distance `d` from the query point.
pub open spec fn seg_at_dist(
    m: Multiset<(i32, i32, i32, i32, u32)>,
    px: i32,
    py: i32,
    id: u32,
    d: int,
) -> bool {
    exists|s: (i32, i32, i32, i32, u32)|
        #[trigger] m.contains(s) && s.4 == id && seg_record_dist2(s, px, py) == d
}

/// The records of `m` at exactly squared distance `d` from the query
/// point.
pub open spec fn seg_at_exact(
    m: Multiset<(i32, i32, i32, i32, u32)>,
    px: i32,
    py: i32,
    d: int,
) -> Multiset<(i32, i32, i32, i32, u32)> {
    m.filter(|s: (i32, i32, i32, i32, u32)| seg_record_dist2(s, px, py) == d)
}

/// The records of `m` within squared distance `d2` of the query point.
pub open spec fn seg_qualifying(
    m: Multiset<(i32, i32, i32, i32, u32)>,
    px: i32,
    py: i32,
    d2: int,
) -> Multiset<(i32, i32, i32, i32, u32)> {
    m.filter(|s: (i32, i32, i32, i32, u32)| seg_record_dist2(s, px, py) <= d2)
}

/// Whether `d` is a lower bound on the distance of every record of `m` to
/// the query point.
pub open spec fn seg_min_dist_is(
    m: Multiset<(i32, i32, i32, i32, u32)>,
    px: i32,
    py: i32,
    d: int,
) -> bool {
    forall|f: (i32, i32, i32, i32, u32)| #[trigger]
        m.contains(f) ==> d <= seg_record_dist2(f, px, py)
}

/// Relies on rstar's `RTree::nearest_neighbor_iter_with_distance_2` over
/// `Line` elements: the best-first iterator yields every element, paired
/// with its squared distance, in non-decreasing distance (it needs only
/// that an element's envelope distance never exceeds its distance, which
/// holds of the truncated integer metric), so its first element is one at
/// minimal distance; an empty tree yields nothing.
#[verifier::external_body]
pub(crate) fn seg_tree_nearest(t: &ShapeTree, px: i32, py: i32) -> (r: Option<(u32, i64)>)
    requires
        coord_ok(px as int, py as int),
        seg_all_in_range(seg_items(*t)),
        seg_all_proper(seg_items(*t)),
    ensures
        r is None <==> seg_items(*t) == Multiset::<(i32, i32, i32, i32, u32)>::empty(),
        r matches Some(p) ==> seg_at_dist(seg_items(*t), px, py, p.0, p.1 as int)
            && seg_min_dist_is(seg_items(*t), px, py, p.1 as int),
{
    t.tree.nearest_neighbor_iter_with_distance_2([px as i64, py as i64]).next().map(
        |(g, d)| (g.data, d),
    )
}

/// Relies on rstar's `RTree::nearest_neighbors_with_distance_2`: of a
/// nonempty tree it returns every element at the minimal distance — each
/// stored element once — together with that distance; of an empty tree it
/// returns nothing.
#[verifier::external_body]
pub(crate) fn seg_tree_nearest_all(t: &ShapeTree, px: i32, py: i32) -> (r: Option<(Vec<u32>, i64)>)
    requires
        coord_ok(px as int, py as int),
        seg_all_in_range(seg_items(*t)),
        seg_all_proper(seg_items(*t)),
    ensures
        r is None <==> seg_items(*t) == Multiset::<(i32, i32, i32, i32, u32)>::empty(),
        r matches Some(p) ==> ({
            &&& p.0@.len() > 0
            &&& seg_min_dist_is(seg_items(*t), px, py, p.1 as int)
            &&& forall|i: int|
                0 <= i < p.0@.len() ==> seg_at_dist(seg_items(*t), px, py, p.0@[i], p.1 as int)
            &&& forall|s: (i32, i32, i32, i32, u32)| #[trigger]
                seg_items(*t).contains(s) && seg_record_dist2(s, px, py) == p.1 as int
                    ==> p.0@.contains(s.4)
            &&& p.0@.len() == seg_at_exact(seg_items(*t), px, py, p.1 as int).len()
        }),
{
    t.tree.nearest_neighbors_with_distance_2(&[px as i64, py as i64]).map(
        |(v, d)| (v.iter().map(|g| g.data).collect(), d),
    )
}

/// Relies on rstar's `RTree::locate_within_distance`: it yields exactly the
/// elements whose squared distance to the query point is at most the given
/// bound — each stored element once — in unspecified order.
#[verifier::external_body]
pub(crate) fn seg_tree_within(t: &ShapeTree, px: i32, py: i32, max_dist2: i64) -> (r: Vec<u32>)
    requires
        coord_ok(px as int, py as int),
        seg_all_in_range(seg_items(*t)),
        seg_all_proper(seg_items(*t)),
    ensures
        forall|i: int|
            0 <= i < r@.len() ==> seg_within_ok(
                seg_items(*t),
                px,
                py,
                max_dist2 as int,
                #[trigger] r@[i],
            ),
        forall|s: (i32, i32, i32, i32, u32)|
            #[trigger] seg_items(*t).contains(s) && seg_dist2(s.0, s.1, s.2, s.3, px, py)
                <= max_dist2 as int ==> r@.contains(s.4),
        r@.len() == seg_qualifying(seg_items(*t), px, py, max_dist2 as int).len(),
{
    t.tree.locate_within_distance([px as i64, py as i64], max_dist2).map(|g| g.data).collect()
}

} // verus!
