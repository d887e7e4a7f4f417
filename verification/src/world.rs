//! The coordinator that owns the three sub-indexes.
//!
//! A [`World`] owns the cell-bitmap index (a map from hierarchical cell
//! identifiers to feature-id bitmaps), an optional point neighbor index
//! (absent until a build call, wholly replaced by every later build), and a
//! shape neighbor index over line segments (always present, grown by
//! repeated insertion). `min_level` and `max_level` are fixed at
//! construction and bound every cell-hierarchy operation.
//!
//! Units: coordinates are `(latitude, longitude)` microdegree pairs.
//! [`World::within_radius`] takes its radius in meters and converts it to an
//! angle with the fixed approximation of 111 km per degree of latitude (a
//! documented precision bound that is acceptable only near the equator).
//! [`World::shapes_within_radius`] instead takes an already-squared radius
//! in raw coordinate units (square microdegrees), addressing the
//! coordinate space directly; the two radius conventions deliberately
//! differ and are documented here to avoid misuse.

use vstd::prelude::*;
use vstd::multiset::Multiset;
use std::collections::HashMap;
use crate::bitmaps::bitmap_add;
use crate::bitmaps::bitmap_fast_or;
use crate::bitmaps::bitmap_ids;
use crate::bitmaps::bitmap_new;
use crate::bitmaps::some_bitmap_contains;
use crate::cells::ancestors_distinct;
use crate::cells::cap_covering;
use crate::cells::cell_ancestor;
use crate::cells::cell_of_coords;
use crate::cells::cell_parent;
use crate::cells::cover_cap;
use crate::cells::leaf_cell_of;
use crate::cells::some_ancestor_in;
use crate::coords::coord_ok;
use crate::coords::pt_dist2;
use crate::coords::TreePoint;
use crate::errors::WorldError;
use crate::rtrees::pt_all_in_range;
use crate::rtrees::pt_items;
use crate::rtrees::pt_nearest_ok;
use crate::rtrees::pt_ranked_ids;
use crate::rtrees::pt_tree_build;
use crate::rtrees::pt_tree_nearest;
use crate::rtrees::pt_tree_nearest_k;
use crate::rtrees::seg_all_in_range;
use crate::rtrees::seg_all_proper;
use crate::rtrees::seg_at_dist;
use crate::rtrees::seg_dist2;
use crate::rtrees::seg_items;
use crate::rtrees::seg_min_dist_is;
use crate::rtrees::seg_proper;
use crate::rtrees::seg_qualifying;
use crate::rtrees::seg_record_dist2;
use crate::rtrees::seg_tree_insert;
use crate::rtrees::seg_tree_nearest;
use crate::rtrees::seg_tree_nearest_all;
use crate::rtrees::seg_tree_new;
use crate::rtrees::seg_tree_within;
use crate::rtrees::seg_within_ok;
use crate::rtrees::PointTree;
use crate::rtrees::ShapeTree;

verus! {

broadcast use
    vstd::std_specs::hash::group_hash_axioms,
    vstd::multiset::group_multiset_axioms,
    vstd::multiset::lemma_multiset_empty_len,
    vstd::seq_lib::group_to_multiset_ensures,
;

/// The abstract contents of a cell-bitmap map: each present cell identifier
/// keyed to the set of feature ids its bitmap holds.
pub open spec fn bm_view(m: Map<u64, croaring::Bitmap>) -> Map<u64, Set<u32>> {
    Map::new(|c: u64| m.contains_key(c), |c: u64| bitmap_ids(m[c]))
}

/// One step of cell-bitmap insertion: add `id` to the set at `cell`,
/// creating the set if the cell is absent.
pub open spec fn add_id(cells: Map<u64, Set<u32>>, cell: u64, id: u32) -> Map<u64, Set<u32>> {
    let prev = if cells.contains_key(cell) {
        cells[cell]
    } else {
        Set::<u32>::empty()
    };
    cells.insert(cell, prev.insert(id))
}

/// The effect of one point insertion on the cell-bitmap mapping: for every
/// level from `lo` to `hi` inclusive, `id` joins the set of the leaf's
/// ancestor cell at that level.
pub open spec fn insert_model(
    cells: Map<u64, Set<u32>>,
    leaf: u64,
    lo: int,
    hi: int,
    id: u32,
) -> Map<u64, Set<u32>>
    decreases hi - lo + 1,
{
    if lo > hi {
        cells
    } else {
        add_id(insert_model(cells, leaf, lo, hi - 1, id), cell_ancestor(leaf, hi as u64), id)
    }
}

/// Whether some cell of the covering prefix `cov[0..n]` is present in
/// `cells` with `id` in its set.
pub open spec fn covered_id_upto(cells: Map<u64, Set<u32>>, cov: Seq<u64>, n: int, id: u32) -> bool {
    exists|j: int|
        0 <= j < n && cells.contains_key(cov[j]) && #[trigger] cells[cov[j]].contains(id)
}

/// Whether some cell of the covering is present in `cells` with `id` in its
/// set: exactly the ids a radius query reports.
pub open spec fn covered_id(cells: Map<u64, Set<u32>>, cov: Seq<u64>, id: u32) -> bool {
    covered_id_upto(cells, cov, cov.len() as int, id)
}

/// The angular radius, in microdegrees, of a radius given in meters, under
/// the fixed approximation of 111 km per degree.
pub open spec fn radius_angle_e6(radius_m: u64) -> int {
    radius_m * 1000 / 111
}

/// The point records of an optional point neighbor index: none built means
/// no records.
pub open spec fn pt_model_of(t: Option<PointTree>) -> Multiset<(i32, i32, u32)> {
    match t {
        Option::Some(pt) => pt_items(pt),
        Option::None => Multiset::<(i32, i32, u32)>::empty(),
    }
}

/// The segment records a polyline contributes: one record per consecutive
/// point pair, degenerate pairs included, all sharing `id`; a polyline of
/// fewer than two points contributes nothing.
pub open spec fn segs_of(coords: Seq<(i32, i32)>, id: u32) -> Multiset<(i32, i32, i32, i32, u32)>
    decreases coords.len(),
{
    if coords.len() < 2 {
        Multiset::<(i32, i32, i32, i32, u32)>::empty()
    } else {
        segs_of(coords.drop_last(), id).insert(
            (
                coords[coords.len() - 2].0,
                coords[coords.len() - 2].1,
                coords[coords.len() - 1].0,
                coords[coords.len() - 1].1,
                id,
            ),
        )
    }
}

/// The zero-length segment record a stored degenerate entry stands for.
pub open spec fn deg_rec(p: (i32, i32, u32)) -> (i32, i32, i32, i32, u32) {
    (p.0, p.1, p.0, p.1, p.2)
}

/// The squared distance from a stored degenerate entry to a query point.
pub open spec fn deg_rec_dist2(p: (i32, i32, u32), px: i32, py: i32) -> int {
    pt_dist2(p.0 as int, p.1 as int, px as int, py as int)
}

/// The segment records that a list of stored degenerate entries stands
/// for: one zero-length record per entry.
pub open spec fn deg_view(v: Seq<(i32, i32, u32)>) -> Multiset<(i32, i32, i32, i32, u32)>
    decreases v.len(),
{
    if v.len() == 0 {
        Multiset::<(i32, i32, i32, i32, u32)>::empty()
    } else {
        deg_view(v.drop_last()).insert(deg_rec(v.last()))
    }
}

/// Appending a degenerate entry adds exactly its record to the view.
pub proof fn lemma_deg_view_push(v: Seq<(i32, i32, u32)>, e: (i32, i32, u32))
    ensures
        deg_view(v.push(e)) == deg_view(v).insert(deg_rec(e)),
{
    assert(v.push(e).drop_last() =~= v);
    assert(v.push(e).last() == e);
}

/// The view holds exactly the records the entries stand for.
pub proof fn lemma_deg_view_contains(v: Seq<(i32, i32, u32)>, f: (i32, i32, i32, i32, u32))
    ensures
        deg_view(v).contains(f) <==> exists|k: int| 0 <= k < v.len() && f == #[trigger] deg_rec(
            v[k],
        ),
    decreases v.len(),
{
    broadcast use vstd::multiset::group_multiset_axioms;

    if v.len() > 0 {
        lemma_deg_view_contains(v.drop_last(), f);
        if deg_view(v).contains(f) {
            if f == deg_rec(v.last()) {
                assert(f == deg_rec(v[v.len() - 1]));
            } else {
                assert(deg_view(v.drop_last()).contains(f));
                let k = choose|k: int| 0 <= k < v.drop_last().len() && f == #[trigger] deg_rec(
                    v.drop_last()[k],
                );
                assert(v.drop_last()[k] == v[k]);
            }
        }
        if exists|k: int| 0 <= k < v.len() && f == #[trigger] deg_rec(v[k]) {
            let k = choose|k: int| 0 <= k < v.len() && f == #[trigger] deg_rec(v[k]);
            if k == v.len() - 1 {
                assert(deg_view(v).contains(deg_rec(v.last())));
            } else {
                assert(v.drop_last()[k] == v[k]);
                assert(deg_view(v.drop_last()).contains(f));
            }
        }
    }
}

/// The view has one record per entry.
pub proof fn lemma_deg_view_len(v: Seq<(i32, i32, u32)>)
    ensures
        deg_view(v).len() == v.len(),
    decreases v.len(),
{
    broadcast use vstd::multiset::group_multiset_axioms;

    if v.len() > 0 {
        lemma_deg_view_len(v.drop_last());
    }
}

/// The qualifying records of the model `m`: those within squared distance
/// `d2` of the query point.
pub open spec fn shape_qualifying(
    m: Multiset<(i32, i32, i32, i32, u32)>,
    px: i32,
    py: i32,
    d2: int,
) -> Multiset<(i32, i32, i32, i32, u32)> {
    m.filter(|s: (i32, i32, i32, i32, u32)| shape_rec_dist2(s, px, py) <= d2)
}

/// Whether `(id, d)` is a best entry among the first `n` stored degenerate
/// entries: some entry among them carries `id` at squared distance `d`,
/// and no entry among them is nearer.
pub open spec fn deg_best_upto(
    v: Seq<(i32, i32, u32)>,
    px: i32,
    py: i32,
    n: int,
    id: u32,
    d: int,
) -> bool {
    &&& exists|k: int|
        0 <= k < n && v[k].2 == id && #[trigger] deg_rec_dist2(v[k], px, py) == d
    &&& forall|k: int| 0 <= k < n ==> d <= #[trigger] deg_rec_dist2(v[k], px, py)
}

/// Whether some stored degenerate entry carries `id` at exactly squared
/// distance `d` from the query point.
pub open spec fn deg_has_at(v: Seq<(i32, i32, u32)>, px: i32, py: i32, d: int, id: u32) -> bool {
    exists|k: int| 0 <= k < v.len() && v[k].2 == id && #[trigger] deg_rec_dist2(v[k], px, py) == d
}

/// Whether `ids` lists the ties at squared distance `d` among the first
/// `n` stored degenerate entries: every listed id has such an entry, and
/// every such entry among the first `n` is listed.
pub open spec fn deg_ties_upto(
    v: Seq<(i32, i32, u32)>,
    px: i32,
    py: i32,
    d: int,
    n: int,
    ids: Seq<u32>,
) -> bool {
    &&& forall|i: int| 0 <= i < ids.len() ==> deg_has_at(v, px, py, d, #[trigger] ids[i])
    &&& forall|k: int|
        0 <= k < n && #[trigger] deg_rec_dist2(v[k], px, py) == d ==> ids.contains(v[k].2)
}

/// The combined model is empty exactly when both of its parts are.
pub proof fn lemma_model_empty(t: Multiset<(i32, i32, i32, i32, u32)>, v: Seq<(i32, i32, u32)>)
    ensures
        (t.add(deg_view(v)) == Multiset::<(i32, i32, i32, i32, u32)>::empty()) <==> (t
            == Multiset::<(i32, i32, i32, i32, u32)>::empty() && v.len() == 0),
{
    broadcast use vstd::multiset::group_multiset_axioms;

    lemma_deg_view_len(v);
    if t.add(deg_view(v)) == Multiset::<(i32, i32, i32, i32, u32)>::empty() {
        assert forall|x: (i32, i32, i32, i32, u32)| t.count(x) == 0 by {
            assert(t.add(deg_view(v)).count(x) == 0);
        }
        assert(t =~= Multiset::<(i32, i32, i32, i32, u32)>::empty());
        assert forall|x: (i32, i32, i32, i32, u32)| deg_view(v).count(x) == 0 by {
            assert(t.add(deg_view(v)).count(x) == 0);
        }
        assert(deg_view(v) =~= Multiset::<(i32, i32, i32, i32, u32)>::empty());
    }
    if t == Multiset::<(i32, i32, i32, i32, u32)>::empty() && v.len() == 0 {
        assert(t.add(deg_view(v)) =~= Multiset::<(i32, i32, i32, i32, u32)>::empty());
    }
}

/// A record of the combined model is a tree record or stands for a stored
/// degenerate entry.
pub proof fn lemma_model_member(
    t: Multiset<(i32, i32, i32, i32, u32)>,
    v: Seq<(i32, i32, u32)>,
    f: (i32, i32, i32, i32, u32),
)
    requires
        t.add(deg_view(v)).contains(f),
    ensures
        t.contains(f) || exists|k: int| 0 <= k < v.len() && f == #[trigger] deg_rec(v[k]),
{
    broadcast use vstd::multiset::group_multiset_axioms;

    if !t.contains(f) {
        assert(deg_view(v).contains(f));
        lemma_deg_view_contains(v, f);
    }
}

/// Every stored degenerate entry's record is in the combined model.
pub proof fn lemma_deg_in_model(
    t: Multiset<(i32, i32, i32, i32, u32)>,
    v: Seq<(i32, i32, u32)>,
    k: int,
)
    requires
        0 <= k < v.len(),
    ensures
        t.add(deg_view(v)).contains(deg_rec(v[k])),
{
    broadcast use vstd::multiset::group_multiset_axioms;

    lemma_deg_view_contains(v, deg_rec(v[k]));
    assert(deg_view(v).contains(deg_rec(v[k])));
}

/// A member of the model at distance `d` that lower-bounds both parts is a
/// minimal record of the model.
pub proof fn lemma_shape_min_combined(
    t: Multiset<(i32, i32, i32, i32, u32)>,
    v: Seq<(i32, i32, u32)>,
    px: i32,
    py: i32,
    s: (i32, i32, i32, i32, u32),
    d: int,
)
    requires
        seg_all_proper(t),
        t.add(deg_view(v)).contains(s),
        shape_rec_dist2(s, px, py) == d,
        seg_min_dist_is(t, px, py, d),
        forall|k: int| 0 <= k < v.len() ==> d <= #[trigger] deg_rec_dist2(v[k], px, py),
    ensures
        shape_min_at(t.add(deg_view(v)), px, py, s),
{
    let m = t.add(deg_view(v));
    assert forall|f: (i32, i32, i32, i32, u32)| #[trigger]
        m.contains(f) implies shape_rec_dist2(s, px, py) <= shape_rec_dist2(f, px, py) by {
        lemma_model_member(t, v, f);
        if t.contains(f) {
            assert(seg_proper(f));
            assert(shape_rec_dist2(f, px, py) == seg_record_dist2(f, px, py));
        } else {
            let k = choose|k: int| 0 <= k < v.len() && f == #[trigger] deg_rec(v[k]);
            assert(shape_rec_dist2(f, px, py) == deg_rec_dist2(v[k], px, py));
        }
    }
}

/// On a multiset of proper records the tree metric and the model metric
/// select the same qualifying records.
pub proof fn lemma_qualifying_proper(
    t: Multiset<(i32, i32, i32, i32, u32)>,
    px: i32,
    py: i32,
    d2: int,
)
    requires
        seg_all_proper(t),
    ensures
        seg_qualifying(t, px, py, d2) == shape_qualifying(t, px, py, d2),
{
    broadcast use vstd::multiset::group_multiset_axioms;

    assert forall|x: (i32, i32, i32, i32, u32)|
        seg_qualifying(t, px, py, d2).count(x) == shape_qualifying(t, px, py, d2).count(x) by {
        if t.count(x) > 0 {
            assert(t.contains(x));
            assert(seg_proper(x));
            assert(shape_rec_dist2(x, px, py) == seg_record_dist2(x, px, py));
        }
    }
    assert(seg_qualifying(t, px, py, d2) =~= shape_qualifying(t, px, py, d2));
}

/// Selecting qualifying records distributes over the two parts of the
/// model.
pub proof fn lemma_qualifying_add(
    a: Multiset<(i32, i32, i32, i32, u32)>,
    b: Multiset<(i32, i32, i32, i32, u32)>,
    px: i32,
    py: i32,
    d2: int,
)
    ensures
        shape_qualifying(a.add(b), px, py, d2) == shape_qualifying(a, px, py, d2).add(
            shape_qualifying(b, px, py, d2),
        ),
{
    broadcast use vstd::multiset::group_multiset_axioms;

    assert(shape_qualifying(a.add(b), px, py, d2) =~= shape_qualifying(a, px, py, d2).add(
        shape_qualifying(b, px, py, d2),
    ));
}

/// Inserting a record grows the qualifying selection exactly when the
/// record qualifies.
pub proof fn lemma_qualifying_insert(
    m: Multiset<(i32, i32, i32, i32, u32)>,
    rec: (i32, i32, i32, i32, u32),
    px: i32,
    py: i32,
    d2: int,
)
    ensures
        shape_rec_dist2(rec, px, py) <= d2 ==> shape_qualifying(m.insert(rec), px, py, d2)
            == shape_qualifying(m, px, py, d2).insert(rec),
        shape_rec_dist2(rec, px, py) > d2 ==> shape_qualifying(m.insert(rec), px, py, d2)
            == shape_qualifying(m, px, py, d2),
{
    broadcast use vstd::multiset::group_multiset_axioms;

    if shape_rec_dist2(rec, px, py) <= d2 {
        assert(shape_qualifying(m.insert(rec), px, py, d2) =~= shape_qualifying(
            m,
            px,
            py,
            d2,
        ).insert(rec));
    } else {
        assert(shape_qualifying(m.insert(rec), px, py, d2) =~= shape_qualifying(m, px, py, d2));
    }
}

/// The squared distance from a segment record to a query point: for a
/// proper record, the spatial tree's truncated segment distance
/// [`crate::rtrees::seg_dist2`]; for a degenerate record — both endpoints
/// equal — the exact squared distance to that point, which is what a
/// zero-length segment's distance is.
pub open spec fn shape_rec_dist2(s: (i32, i32, i32, i32, u32), px: i32, py: i32) -> int {
    if s.0 == s.2 && s.1 == s.3 {
        pt_dist2(s.0 as int, s.1 as int, px as int, py as int)
    } else {
        seg_dist2(s.0, s.1, s.2, s.3, px, py)
    }
}

/// Whether `s` is a record of the shape model `m` at minimal distance from
/// the query point.
pub open spec fn shape_min_at(
    m: Multiset<(i32, i32, i32, i32, u32)>,
    px: i32,
    py: i32,
    s: (i32, i32, i32, i32, u32),
) -> bool {
    &&& m.contains(s)
    &&& forall|f: (i32, i32, i32, i32, u32)| #[trigger]
        m.contains(f) ==> shape_rec_dist2(s, px, py) <= shape_rec_dist2(f, px, py)
}

/// Whether a nearest-shape query over the model `m` may answer `id`: some
/// record at minimal distance carries it.
pub open spec fn shape_nearest_ok(
    m: Multiset<(i32, i32, i32, i32, u32)>,
    px: i32,
    py: i32,
    id: u32,
) -> bool {
    exists|s: (i32, i32, i32, i32, u32)| #[trigger] shape_min_at(m, px, py, s) && s.4 == id
}

/// Whether some record of the model `m` carries `id` and lies within
/// squared distance `d2` of the query point.
pub open spec fn shape_within_ok(
    m: Multiset<(i32, i32, i32, i32, u32)>,
    px: i32,
    py: i32,
    d2: int,
    id: u32,
) -> bool {
    exists|s: (i32, i32, i32, i32, u32)|
        #[trigger] m.contains(s) && s.4 == id && shape_rec_dist2(s, px, py) <= d2
}

/// The segment records a list of polylines contributes under one feature
/// id: every polyline of the list contributes independently, so a too-short
/// polyline is skipped without affecting the ones after it.
pub open spec fn shapes_segs(shapes: Seq<Seq<(i32, i32)>>, id: u32) -> Multiset<
    (i32, i32, i32, i32, u32),
>
    decreases shapes.len(),
{
    if shapes.len() == 0 {
        Multiset::<(i32, i32, i32, i32, u32)>::empty()
    } else {
        shapes_segs(shapes.drop_last(), id).add(segs_of(shapes.last(), id))
    }
}

/// Whether every coordinate pair of a polyline is in range.
pub open spec fn polyline_ok(coords: Seq<(i32, i32)>) -> bool {
    forall|i: int|
        0 <= i < coords.len() ==> coord_ok(
            #[trigger] coords[i].0 as int,
            coords[i].1 as int,
        )
}

/// The owner of the three sub-indexes.
pub struct World {
    /// The cell-bitmap index: cell identifier to feature-id bitmap.
    pub cellid_map: HashMap<u64, croaring::Bitmap>,
    /// The coarsest level indexed per point.
    pub min_level: u64,
    /// The finest level indexed per point.
    pub max_level: u64,
    /// The point neighbor index; absent until a build call.
    pub tree: Option<PointTree>,
    /// The proper (nonzero-length) segment records of the shape neighbor
    /// index; always present, grown incrementally.
    pub shape_tree: ShapeTree,
    /// The degenerate segment records of the shape neighbor index, held as
    /// points beside the tree: the tree's segment distance is undefined on
    /// a zero-length segment, so these records live here and every shape
    /// query combines both parts.
    pub degenerate_segments: Vec<(i32, i32, u32)>,
}

impl World {
    /// The abstract cell-to-id-set mapping of the cell-bitmap index.
    pub open spec fn cells(self) -> Map<u64, Set<u32>> {
        bm_view(self.cellid_map@)
    }

    /// The full shape neighbor index model: one segment record per inserted
    /// consecutive point pair — the proper records held in the tree plus
    /// the degenerate records held beside it.
    pub open spec fn shape_model(self) -> Multiset<(i32, i32, i32, i32, u32)> {
        seg_items(self.shape_tree).add(deg_view(self.degenerate_segments@))
    }

    /// Well-formedness: the level range is ordered and within the cell
    /// hierarchy's 30 levels, and every stored record is in coordinate
    /// range.
    pub open spec fn wf(self) -> bool {
        &&& self.min_level <= self.max_level
        &&& self.max_level <= 30
        &&& pt_all_in_range(pt_model_of(self.tree))
        &&& seg_all_in_range(seg_items(self.shape_tree))
        &&& seg_all_proper(seg_items(self.shape_tree))
        &&& forall|i: int|
            0 <= i < self.degenerate_segments@.len() ==> coord_ok(
                #[trigger] self.degenerate_segments@[i].0 as int,
                self.degenerate_segments@[i].1 as int,
            )
    }

    /// Constructs an empty world whose cell-hierarchy operations are bounded
    /// by the given level range.
    pub fn new(min_level: u64, max_level: u64) -> (w: World)
        requires
            min_level <= max_level,
            max_level <= 30,
        ensures
            w.wf(),
            w.min_level == min_level,
            w.max_level == max_level,
            w.cells() == Map::<u64, Set<u32>>::empty(),
            w.tree is None,
            w.shape_model() == Multiset::<(i32, i32, i32, i32, u32)>::empty(),
    {
        let w = World {
            cellid_map: HashMap::new(),
            min_level,
            max_level,
            tree: None,
            shape_tree: seg_tree_new(),
            degenerate_segments: Vec::new(),
        };
        proof {
            assert(w.cells() =~= Map::<u64, Set<u32>>::empty());
            assert(w.shape_model() =~= Multiset::<(i32, i32, i32, i32, u32)>::empty());
        }
        w
    }

    /// Inserts a feature id at a coordinate pair into the cell-bitmap
    /// index: for every level of the range, the id joins the bitmap of the
    /// leaf cell's ancestor at that level. A set insertion, hence
    /// idempotent. The other two indexes are untouched.
    pub fn insert(&mut self, coords: (i32, i32), item_id: u32)
        requires
            old(self).wf(),
            coord_ok(coords.0 as int, coords.1 as int),
        ensures
            final(self).wf(),
            final(self).cells() == insert_model(
                old(self).cells(),
                leaf_cell_of(coords.0, coords.1),
                old(self).min_level as int,
                old(self).max_level as int,
                item_id,
            ),
            ancestors_distinct(
                leaf_cell_of(coords.0, coords.1),
                old(self).min_level as int,
                old(self).max_level as int,
            ),
            final(self).min_level == old(self).min_level,
            final(self).max_level == old(self).max_level,
            final(self).tree == old(self).tree,
            final(self).shape_tree == old(self).shape_tree,
            final(self).degenerate_segments == old(self).degenerate_segments,
    {
        let leaf = cell_of_coords(coords.0, coords.1);
        let ghost orig: Map<u64, Set<u32>> = self.cells();
        let mut level: u64 = self.min_level;
        while level <= self.max_level
            invariant
                old(self).min_level <= level,
                level <= old(self).max_level + 1,
                self.min_level == old(self).min_level,
                self.max_level == old(self).max_level,
                self.max_level <= 30,
                self.tree == old(self).tree,
                self.shape_tree == old(self).shape_tree,
                self.degenerate_segments == old(self).degenerate_segments,
                leaf == leaf_cell_of(coords.0, coords.1),
                orig == old(self).cells(),
                self.cells() == insert_model(
                    orig,
                    leaf,
                    old(self).min_level as int,
                    level as int - 1,
                    item_id,
                ),
                forall|l1: int, l2: int|
                    #![trigger cell_ancestor(leaf, l1 as u64), cell_ancestor(leaf, l2 as u64)]
                    old(self).min_level <= l1 < level && 0 <= l2 <= 30 && l1 != l2
                        ==> cell_ancestor(leaf, l1 as u64) != cell_ancestor(leaf, l2 as u64),
            decreases self.max_level + 1 - level,
        {
            let ghost pre = self.cells();
            let cell = cell_parent(leaf, level);
            let mut bm = match self.cellid_map.remove(&cell) {
                Some(b) => b,
                None => bitmap_new(),
            };
            bitmap_add(&mut bm, item_id);
            self.cellid_map.insert(cell, bm);
            proof {
                assert(self.cells() =~= add_id(pre, cell, item_id));
                assert forall|l2: int|
                    0 <= l2 <= 30 && l2 != level as int implies cell_ancestor(leaf, level)
                    != #[trigger] cell_ancestor(leaf, l2 as u64) by {
                    assert((l2 as u64) != level);
                    assert(cell != cell_ancestor(leaf, l2 as u64));
                }
            }
            level = level + 1;
        }
        proof {
            assert(ancestors_distinct(
                leaf,
                old(self).min_level as int,
                old(self).max_level as int,
            ));
        }
    }

    /// Collects the feature ids within `radius_m` meters of a coordinate
    /// pair, as the union (a multi-way OR) of the bitmaps of the cells
    /// covering the circular cap of that radius. Absent cells contribute
    /// nothing; the result may be empty and the query never fails. The
    /// radius is converted with the fixed 111 km per degree approximation.
    pub fn within_radius(&self, coords: (i32, i32), radius_m: u64, max_cells: usize) -> (r:
        croaring::Bitmap)
        requires
            self.wf(),
            coord_ok(coords.0 as int, coords.1 as int),
            radius_m <= 200_000_000,
        ensures
            forall|id: u32| #[trigger]
                bitmap_ids(r).contains(id) <==> covered_id(
                    self.cells(),
                    cap_covering(
                        coords.0,
                        coords.1,
                        radius_angle_e6(radius_m) as i32,
                        self.min_level,
                        self.max_level,
                        max_cells,
                    ),
                    id,
                ),
            some_ancestor_in(
                cap_covering(
                    coords.0,
                    coords.1,
                    radius_angle_e6(radius_m) as i32,
                    self.min_level,
                    self.max_level,
                    max_cells,
                ),
                leaf_cell_of(coords.0, coords.1),
                self.min_level as int,
                self.max_level as int,
            ),
    {
        let angle: i32 = ((radius_m * 1000) / 111) as i32;
        let cov = cover_cap(coords.0, coords.1, angle, self.min_level, self.max_level, max_cells);
        let ghost covs: Seq<u64> = cov@;
        let mut refs: Vec<&croaring::Bitmap> = Vec::new();
        let mut i: usize = 0;
        while i < cov.len()
            invariant
                0 <= i <= covs.len(),
                cov@ == covs,
                forall|id: u32|
                    some_bitmap_contains(refs@, id) <==> covered_id_upto(
                        self.cells(),
                        covs,
                        i as int,
                        id,
                    ),
            decreases covs.len() - i,
        {
            let ghost prev_refs: Seq<&croaring::Bitmap> = refs@;
            let cell = cov[i];
            match self.cellid_map.get(&cell) {
                Some(b) => {
                    refs.push(b);
                    proof {
                        assert forall|id: u32|
                            some_bitmap_contains(refs@, id) <==> covered_id_upto(
                                self.cells(),
                                covs,
                                i as int + 1,
                                id,
                            ) by {
                            assert(self.cellid_map@.contains_key(cell));
                            assert(bitmap_ids(*b) == self.cells()[cell]);
                            if some_bitmap_contains(refs@, id) {
                                let k = choose|k: int|
                                    0 <= k < refs@.len() && #[trigger] bitmap_ids(
                                        *refs@[k],
                                    ).contains(id);
                                if k < prev_refs.len() {
                                    assert(some_bitmap_contains(prev_refs, id));
                                } else {
                                    assert(self.cells()[covs[i as int]].contains(id));
                                }
                            }
                            if covered_id_upto(self.cells(), covs, i as int + 1, id) {
                                let j = choose|j: int|
                                    0 <= j < i as int + 1 && self.cells().contains_key(covs[j])
                                        && #[trigger] self.cells()[covs[j]].contains(id);
                                if j < i as int {
                                    assert(covered_id_upto(self.cells(), covs, i as int, id));
                                    assert(some_bitmap_contains(prev_refs, id));
                                    let k = choose|k: int|
                                        0 <= k < prev_refs.len() && #[trigger] bitmap_ids(
                                            *prev_refs[k],
                                        ).contains(id);
                                    assert(bitmap_ids(*refs@[k]).contains(id));
                                } else {
                                    assert(bitmap_ids(*refs@[refs@.len() - 1]).contains(id));
                                }
                            }
                        }
                    }
                },
                None => {
                    proof {
                        assert(!self.cellid_map@.contains_key(cell));
                        assert forall|id: u32|
                            some_bitmap_contains(refs@, id) <==> covered_id_upto(
                                self.cells(),
                                covs,
                                i as int + 1,
                                id,
                            ) by {
                            if covered_id_upto(self.cells(), covs, i as int + 1, id) {
                                let j = choose|j: int|
                                    0 <= j < i as int + 1 && self.cells().contains_key(covs[j])
                                        && #[trigger] self.cells()[covs[j]].contains(id);
                                assert(j < i as int);
                                assert(covered_id_upto(self.cells(), covs, i as int, id));
                            }
                        }
                    }
                },
            }
            i = i + 1;
        }
        let r = bitmap_fast_or(&refs);
        proof {
            assert forall|id: u32| #[trigger]
                bitmap_ids(r).contains(id) <==> covered_id(self.cells(), covs, id) by {
                if covered_id(self.cells(), covs, id) {
                    assert(some_bitmap_contains(refs@, id));
                    let k = choose|k: int|
                        0 <= k < refs@.len() && #[trigger] bitmap_ids(*refs@[k]).contains(id);
                    assert(bitmap_ids(*refs@[k]).contains(id));
                }
            }
        }
        r
    }

    /// Builds (or wholly rebuilds) the point neighbor index from a complete
    /// list of point records via bulk loading. Replaces any previously
    /// built index; the other two indexes are untouched.
    pub fn build_reverse_geocode_index(&mut self, points: Vec<TreePoint>)
        requires
            old(self).wf(),
            forall|i: int|
                0 <= i < points@.len() ==> coord_ok(
                    #[trigger] points@[i].0 as int,
                    points@[i].1 as int,
                ),
        ensures
            final(self).wf(),
            final(self).tree is Some,
            pt_model_of(final(self).tree) == points@.map_values(
                |p: TreePoint| (p.0, p.1, p.2),
            ).to_multiset(),
            final(self).cellid_map == old(self).cellid_map,
            final(self).min_level == old(self).min_level,
            final(self).max_level == old(self).max_level,
            final(self).shape_tree == old(self).shape_tree,
            final(self).degenerate_segments == old(self).degenerate_segments,
    {
        let ghost recs: Seq<(i32, i32, u32)> = points@.map_values(|p: TreePoint| (p.0, p.1, p.2));
        let t = pt_tree_build(points);
        proof {
            recs.to_multiset_ensures();
            assert forall|e: (i32, i32, u32)| #[trigger]
                pt_items(t).contains(e) implies coord_ok(e.0 as int, e.1 as int) by {
                assert(recs.contains(e));
                let i = choose|i: int| 0 <= i < recs.len() && recs[i] == e;
            }
        }
        self.tree = Some(t);
    }

    /// The feature id of the single closest point record to a coordinate
    /// pair, by planar squared Euclidean distance. Fails with `NotBuilt` if
    /// no build call was ever made, and with `NoResult` if the index was
    /// built from zero points; succeeds otherwise.
    pub fn nearest(&self, coords: (i32, i32)) -> (r: Result<u32, WorldError>)
        requires
            self.wf(),
            coord_ok(coords.0 as int, coords.1 as int),
        ensures
            r == Err::<u32, WorldError>(WorldError::NotBuilt) <==> self.tree is None,
            r == Err::<u32, WorldError>(WorldError::NoResult) <==> self.tree is Some
                && pt_model_of(self.tree) == Multiset::<(i32, i32, u32)>::empty(),
            r matches Ok(id) ==> pt_nearest_ok(
                pt_model_of(self.tree),
                coords.0 as int,
                coords.1 as int,
                id,
            ),
    {
        match &self.tree {
            Some(t) => match pt_tree_nearest(t, coords.0, coords.1) {
                Some(id) => Ok(id),
                None => Err(WorldError::NoResult),
            },
            None => Err(WorldError::NotBuilt),
        }
    }

    /// Up to `limit` feature ids in non-decreasing distance order from a
    /// coordinate pair: the ranked prefix of the built point records.
    /// Fails with `NotBuilt` if no build call was ever made; succeeds
    /// otherwise (an empty or exhausted index yields a short or empty
    /// list).
    pub fn nearest_vec(&self, coords: (i32, i32), limit: usize) -> (r: Result<
        Vec<u32>,
        WorldError,
    >)
        requires
            self.wf(),
            coord_ok(coords.0 as int, coords.1 as int),
        ensures
            r is Err <==> self.tree is None,
            r matches Err(e) ==> e == WorldError::NotBuilt,
            r matches Ok(ids) ==> pt_ranked_ids(
                pt_model_of(self.tree),
                coords.0 as int,
                coords.1 as int,
                limit as int,
                ids@,
            ),
    {
        match &self.tree {
            Some(t) => Ok(pt_tree_nearest_k(t, coords.0, coords.1, limit)),
            None => Err(WorldError::NotBuilt),
        }
    }

    /// Inserts a polyline into the shape neighbor index under one feature
    /// id: one segment record per consecutive point pair, degenerate pairs
    /// included (a degenerate record is held as a point beside the tree).
    /// A polyline of fewer than two points is a no-op, not an error. The
    /// other two indexes are untouched.
    pub fn insert_shape(&mut self, coords: Vec<(i32, i32)>, item_id: u32)
        requires
            old(self).wf(),
            polyline_ok(coords@),
        ensures
            final(self).wf(),
            final(self).shape_model() == old(self).shape_model().add(segs_of(coords@, item_id)),
            final(self).cellid_map == old(self).cellid_map,
            final(self).min_level == old(self).min_level,
            final(self).max_level == old(self).max_level,
            final(self).tree == old(self).tree,
    {
        self.insert_shape_ref(&coords, item_id);
    }

    /// As [`World::insert_shape`], borrowing the polyline.
    fn insert_shape_ref(&mut self, coords: &Vec<(i32, i32)>, item_id: u32)
        requires
            old(self).wf(),
            polyline_ok(coords@),
        ensures
            final(self).wf(),
            final(self).shape_model() == old(self).shape_model().add(segs_of(coords@, item_id)),
            final(self).cellid_map == old(self).cellid_map,
            final(self).min_level == old(self).min_level,
            final(self).max_level == old(self).max_level,
            final(self).tree == old(self).tree,
    {
        if coords.len() < 2 {
            proof {
                assert(self.shape_model().add(segs_of(coords@, item_id)) =~= self.shape_model());
            }
            return ;
        }
        let ghost base: Multiset<(i32, i32, i32, i32, u32)> = self.shape_model();
        let mut i: usize = 1;
        proof {
            assert(segs_of(coords@.take(1), item_id) =~= Multiset::<
                (i32, i32, i32, i32, u32),
            >::empty());
            assert(self.shape_model() =~= base.add(segs_of(coords@.take(1), item_id)));
        }
        while i < coords.len()
            invariant
                1 <= i <= coords@.len(),
                2 <= coords@.len(),
                polyline_ok(coords@),
                base == old(self).shape_model(),
                self.cellid_map == old(self).cellid_map,
                self.min_level == old(self).min_level,
                self.max_level == old(self).max_level,
                self.tree == old(self).tree,
                old(self).wf(),
                seg_all_in_range(seg_items(self.shape_tree)),
                seg_all_proper(seg_items(self.shape_tree)),
                forall|j: int|
                    0 <= j < self.degenerate_segments@.len() ==> coord_ok(
                        #[trigger] self.degenerate_segments@[j].0 as int,
                        self.degenerate_segments@[j].1 as int,
                    ),
                self.shape_model() == base.add(segs_of(coords@.take(i as int), item_id)),
            decreases coords@.len() - i,
        {
            let a = coords[i - 1];
            let b = coords[i];
            let ghost pre_tree: Multiset<(i32, i32, i32, i32, u32)> = seg_items(self.shape_tree);
            let ghost pre_deg: Seq<(i32, i32, u32)> = self.degenerate_segments@;
            let ghost pre_model: Multiset<(i32, i32, i32, i32, u32)> = self.shape_model();
            if a.0 != b.0 || a.1 != b.1 {
                seg_tree_insert(&mut self.shape_tree, a.0, a.1, b.0, b.1, item_id);
            } else {
                self.degenerate_segments.push((a.0, a.1, item_id));
            }
            proof {
                let rec = (a.0, a.1, b.0, b.1, item_id);
                let s1 = coords@.take(i as int + 1);
                assert(s1.drop_last() =~= coords@.take(i as int));
                assert(s1[s1.len() - 2] == coords@[i as int - 1]);
                assert(s1[s1.len() - 1] == coords@[i as int]);
                assert(segs_of(s1, item_id) == segs_of(coords@.take(i as int), item_id).insert(
                    rec,
                ));
                assert(coord_ok(coords@[i as int - 1].0 as int, coords@[i as int - 1].1 as int));
                assert(coord_ok(coords@[i as int].0 as int, coords@[i as int].1 as int));
                if a.0 != b.0 || a.1 != b.1 {
                    assert forall|s: (i32, i32, i32, i32, u32)| #[trigger]
                        seg_items(self.shape_tree).contains(s) implies coord_ok(
                        s.0 as int,
                        s.1 as int,
                    ) && coord_ok(s.2 as int, s.3 as int) && (s.0 != s.2 || s.1 != s.3) by {
                        if s != rec {
                            assert(pre_tree.contains(s));
                        }
                    }
                    assert(self.shape_model() =~= pre_model.insert(rec));
                } else {
                    assert(self.degenerate_segments@ == pre_deg.push((a.0, a.1, item_id)));
                    lemma_deg_view_push(pre_deg, (a.0, a.1, item_id));
                    assert(deg_rec((a.0, a.1, item_id)) == rec);
                    assert(self.shape_model() =~= pre_model.insert(rec));
                }
                assert(self.shape_model() =~= base.add(segs_of(s1, item_id)));
            }
            i = i + 1;
        }
        proof {
            assert(coords@.take(coords@.len() as int) =~= coords@);
        }
    }

    /// Inserts every polyline of a list under one feature id. Each polyline
    /// contributes independently: one with fewer than two points is skipped
    /// on its own and the polylines after it are still inserted.
    pub fn insert_shapes(&mut self, shapes: Vec<Vec<(i32, i32)>>, item_id: u32)
        requires
            old(self).wf(),
            forall|i: int| 0 <= i < shapes@.len() ==> polyline_ok(#[trigger] shapes@[i]@),
        ensures
            final(self).wf(),
            final(self).shape_model() == old(self).shape_model().add(
                shapes_segs(shapes@.map_values(|v: Vec<(i32, i32)>| v@), item_id),
            ),
            final(self).cellid_map == old(self).cellid_map,
            final(self).min_level == old(self).min_level,
            final(self).max_level == old(self).max_level,
            final(self).tree == old(self).tree,
    {
        let ghost sv: Seq<Seq<(i32, i32)>> = shapes@.map_values(|v: Vec<(i32, i32)>| v@);
        let ghost base: Multiset<(i32, i32, i32, i32, u32)> = self.shape_model();
        let mut i: usize = 0;
        proof {
            assert(shapes_segs(sv.take(0), item_id) =~= Multiset::<
                (i32, i32, i32, i32, u32),
            >::empty());
            assert(self.shape_model() =~= base.add(shapes_segs(sv.take(0), item_id)));
        }
        while i < shapes.len()
            invariant
                0 <= i <= shapes@.len(),
                sv == shapes@.map_values(|v: Vec<(i32, i32)>| v@),
                forall|j: int| 0 <= j < shapes@.len() ==> polyline_ok(#[trigger] shapes@[j]@),
                base == old(self).shape_model(),
                self.cellid_map == old(self).cellid_map,
                self.min_level == old(self).min_level,
                self.max_level == old(self).max_level,
                self.tree == old(self).tree,
                old(self).wf(),
                self.wf(),
                self.shape_model() == base.add(shapes_segs(sv.take(i as int), item_id)),
            decreases shapes@.len() - i,
        {
            let ghost pre: Multiset<(i32, i32, i32, i32, u32)> = self.shape_model();
            self.insert_shape_ref(&shapes[i], item_id);
            proof {
                let s1 = sv.take(i as int + 1);
                assert(s1.drop_last() =~= sv.take(i as int));
                assert(s1.last() == sv[i as int]);
                assert(sv[i as int] == shapes@[i as int]@);
                assert(shapes_segs(s1, item_id) == shapes_segs(sv.take(i as int), item_id).add(
                    segs_of(shapes@[i as int]@, item_id),
                ));
                assert(self.shape_model() =~= base.add(shapes_segs(s1, item_id)));
            }
            i = i + 1;
        }
        proof {
            assert(sv.take(sv.len() as int) =~= sv);
        }
    }

    /// The feature id owning the single closest segment record to a
    /// coordinate pair, or nothing if the shape neighbor index is empty.
    pub fn nearest_shape(&self, coords: (i32, i32)) -> (r: Option<u32>)
        requires
            self.wf(),
            coord_ok(coords.0 as int, coords.1 as int),
        ensures
            r is None <==> self.shape_model() == Multiset::<(i32, i32, i32, i32, u32)>::empty(),
            r matches Some(id) ==> shape_nearest_ok(self.shape_model(), coords.0, coords.1, id),
    {
        let ghost tp = seg_items(self.shape_tree);
        let ghost dv = self.degenerate_segments@;
        let tree_best = seg_tree_nearest(&self.shape_tree, coords.0, coords.1);
        let deg_best = self.nearest_degenerate(coords);
        proof {
            lemma_model_empty(tp, dv);
        }
        match (tree_best, deg_best) {
            (None, None) => None,
            (Some(t), None) => {
                proof {
                    self.lemma_winner_tree(coords, t.0, t.1 as int, t.1 as int);
                }
                Some(t.0)
            },
            (None, Some(g)) => {
                proof {
                    self.lemma_winner_deg(coords, g.0, g.1 as int, g.1 as int);
                }
                Some(g.0)
            },
            (Some(t), Some(g)) => {
                if t.1 <= g.1 {
                    proof {
                        self.lemma_winner_tree(coords, t.0, t.1 as int, g.1 as int);
                    }
                    Some(t.0)
                } else {
                    proof {
                        self.lemma_winner_deg(coords, g.0, g.1 as int, t.1 as int);
                    }
                    Some(g.0)
                }
            },
        }
    }

    /// The feature ids of all segment records tied for closest to a
    /// coordinate pair, or nothing if the shape neighbor index is empty.
    pub fn nearest_shapes(&self, coords: (i32, i32)) -> (r: Option<Vec<u32>>)
        requires
            self.wf(),
            coord_ok(coords.0 as int, coords.1 as int),
        ensures
            r is None <==> self.shape_model() == Multiset::<(i32, i32, i32, i32, u32)>::empty(),
            r matches Some(ids) ==> ids@.len() > 0 && (forall|i: int|
                0 <= i < ids@.len() ==> shape_nearest_ok(
                    self.shape_model(),
                    coords.0,
                    coords.1,
                    #[trigger] ids@[i],
                )) && (forall|s: (i32, i32, i32, i32, u32)| #[trigger]
                shape_min_at(self.shape_model(), coords.0, coords.1, s) ==> ids@.contains(s.4)),
    {
        let ghost tp = seg_items(self.shape_tree);
        let ghost dv = self.degenerate_segments@;
        let ghost m = self.shape_model();
        let px = coords.0;
        let py = coords.1;
        let tree_all = seg_tree_nearest_all(&self.shape_tree, px, py);
        let deg_best = self.nearest_degenerate(coords);
        proof {
            lemma_model_empty(tp, dv);
        }
        match (tree_all, deg_best) {
            (None, None) => None,
            (Some(p), None) => {
                proof {
                    self.lemma_ties_sound_tree(coords, p.0@, p.1 as int, p.1 as int);
                    assert forall|s: (i32, i32, i32, i32, u32)| #[trigger]
                        shape_min_at(m, px, py, s) implies p.0@.contains(s.4) by {
                        assert(seg_at_dist(tp, px, py, p.0@[0], p.1 as int));
                        let w0 = choose|w: (i32, i32, i32, i32, u32)|
                            #[trigger] tp.contains(w) && w.4 == p.0@[0] && seg_record_dist2(
                                w,
                                px,
                                py,
                            ) == p.1 as int;
                        assert(tp.contains(w0) && seg_record_dist2(w0, px, py) == p.1 as int);
                        self.lemma_min_is_tree_tie(coords, s, p.1 as int, p.1 as int);
                    }
                }
                Some(p.0)
            },
            (None, Some(g)) => {
                let ids = self.degenerate_ties(coords, g.1);
                proof {
                    self.lemma_ties_sound_deg(coords, ids@, g.1 as int, g.1 as int);
                    assert(deg_has_at(dv, px, py, g.1 as int, dv[choose|k: int|
                        0 <= k < dv.len() && dv[k].2 == g.0 && #[trigger] deg_rec_dist2(
                            dv[k],
                            px,
                            py,
                        ) == g.1 as int].2));
                    assert(ids@.len() > 0) by {
                        let k = choose|k: int|
                            0 <= k < dv.len() && dv[k].2 == g.0 && #[trigger] deg_rec_dist2(
                                dv[k],
                                px,
                                py,
                            ) == g.1 as int;
                        assert(ids@.contains(dv[k].2));
                    }
                    assert forall|s: (i32, i32, i32, i32, u32)| #[trigger]
                        shape_min_at(m, px, py, s) implies ids@.contains(s.4) by {
                        self.lemma_min_is_deg_tie(coords, s, ids@, g.1 as int, g.1 as int);
                    }
                }
                Some(ids)
            },
            (Some(p), Some(g)) => {
                if p.1 < g.1 {
                    proof {
                        self.lemma_ties_sound_tree(coords, p.0@, p.1 as int, g.1 as int);
                        assert forall|s: (i32, i32, i32, i32, u32)| #[trigger]
                            shape_min_at(m, px, py, s) implies p.0@.contains(s.4) by {
                            assert(seg_at_dist(tp, px, py, p.0@[0], p.1 as int));
                            let w0 = choose|w: (i32, i32, i32, i32, u32)|
                                #[trigger] tp.contains(w) && w.4 == p.0@[0] && seg_record_dist2(
                                    w,
                                    px,
                                    py,
                                ) == p.1 as int;
                            assert(tp.contains(w0) && seg_record_dist2(w0, px, py) == p.1 as int);
                            self.lemma_min_is_tree_tie(coords, s, p.1 as int, g.1 as int);
                        }
                    }
                    Some(p.0)
                } else if g.1 < p.1 {
                    let ids = self.degenerate_ties(coords, g.1);
                    proof {
                        self.lemma_ties_sound_deg(coords, ids@, g.1 as int, p.1 as int);
                        assert(ids@.len() > 0) by {
                            let k = choose|k: int|
                                0 <= k < dv.len() && dv[k].2 == g.0 && #[trigger] deg_rec_dist2(
                                    dv[k],
                                    px,
                                    py,
                                ) == g.1 as int;
                            assert(ids@.contains(dv[k].2));
                        }
                        assert forall|s: (i32, i32, i32, i32, u32)| #[trigger]
                            shape_min_at(m, px, py, s) implies ids@.contains(s.4) by {
                            self.lemma_min_is_deg_tie(coords, s, ids@, g.1 as int, p.1 as int);
                        }
                    }
                    Some(ids)
                } else {
                    let mut ids = p.0;
                    let mut extra = self.degenerate_ties(coords, g.1);
                    let ghost tree_ids: Seq<u32> = ids@;
                    let ghost deg_ids: Seq<u32> = extra@;
                    ids.append(&mut extra);
                    proof {
                        assert(ids@ == tree_ids + deg_ids);
                        self.lemma_ties_sound_tree(coords, tree_ids, p.1 as int, g.1 as int);
                        self.lemma_ties_sound_deg(coords, deg_ids, g.1 as int, p.1 as int);
                        assert forall|i: int| 0 <= i < ids@.len() implies shape_nearest_ok(
                            m,
                            px,
                            py,
                            #[trigger] ids@[i],
                        ) by {
                            if i < tree_ids.len() {
                                assert(ids@[i] == tree_ids[i]);
                            } else {
                                assert(ids@[i] == deg_ids[i - tree_ids.len()]);
                            }
                        }
                        assert forall|s: (i32, i32, i32, i32, u32)| #[trigger]
                            shape_min_at(m, px, py, s) implies ids@.contains(s.4) by {
                            lemma_model_member(tp, dv, s);
                            if tp.contains(s) {
                                assert(seg_at_dist(tp, px, py, p.0@[0], p.1 as int));
                                let w0 = choose|w: (i32, i32, i32, i32, u32)|
                                    #[trigger] tp.contains(w) && w.4 == p.0@[0] && seg_record_dist2(
                                        w,
                                        px,
                                        py,
                                    ) == p.1 as int;
                                assert(tp.contains(w0) && seg_record_dist2(w0, px, py) == p.1 as int);
                                self.lemma_min_is_tree_tie(coords, s, p.1 as int, g.1 as int);
                                let i = choose|i: int|
                                    0 <= i < tree_ids.len() && tree_ids[i] == s.4;
                                assert(ids@[i] == s.4);
                            } else {
                                self.lemma_min_is_deg_tie(
                                    coords,
                                    s,
                                    deg_ids,
                                    g.1 as int,
                                    p.1 as int,
                                );
                                let i = choose|i: int| 0 <= i < deg_ids.len() && deg_ids[i] == s.4;
                                assert(ids@[tree_ids.len() + i] == s.4);
                            }
                        }
                        assert(ids@.len() > 0);
                    }
                    Some(ids)
                }
            },
        }
    }

    /// Every feature id owning a segment record within the given radius of
    /// a coordinate pair, one id per qualifying record. `radius_sq` is an
    /// already-squared value in raw coordinate units (square microdegrees):
    /// a record qualifies when its squared distance to the point is at most
    /// `radius_sq`. This deliberately differs from the kilometer radius of
    /// [`World::within_radius`]: the squared raw-unit convention is kept
    /// because it addresses the shared coordinate space directly, and the
    /// difference is documented here and at the module head to avoid
    /// misuse.
    pub fn shapes_within_radius(&self, coords: (i32, i32), radius_sq: i64) -> (r: Vec<u32>)
        requires
            self.wf(),
            coord_ok(coords.0 as int, coords.1 as int),
        ensures
            forall|i: int|
                0 <= i < r@.len() ==> shape_within_ok(
                    self.shape_model(),
                    coords.0,
                    coords.1,
                    radius_sq as int,
                    #[trigger] r@[i],
                ),
            forall|s: (i32, i32, i32, i32, u32)| #[trigger]
                self.shape_model().contains(s) && shape_rec_dist2(s, coords.0, coords.1)
                    <= radius_sq as int ==> r@.contains(s.4),
            r@.len() == shape_qualifying(
                self.shape_model(),
                coords.0,
                coords.1,
                radius_sq as int,
            ).len(),
    {
        let px = coords.0;
        let py = coords.1;
        let ghost tp = seg_items(self.shape_tree);
        let ghost dv = self.degenerate_segments@;
        let ghost m = self.shape_model();
        let ghost d2: int = radius_sq as int;
        let mut r = seg_tree_within(&self.shape_tree, px, py, radius_sq);
        proof {
            lemma_qualifying_proper(tp, px, py, d2);
            assert forall|i: int| 0 <= i < r@.len() implies shape_within_ok(
                m,
                px,
                py,
                d2,
                #[trigger] r@[i],
            ) by {
                assert(seg_within_ok(tp, px, py, d2, r@[i]));
                let s = choose|s: (i32, i32, i32, i32, u32)|
                    #[trigger] tp.contains(s) && s.4 == r@[i] && seg_record_dist2(s, px, py)
                        <= d2;
                assert(m.contains(s));
                assert(shape_rec_dist2(s, px, py) == seg_record_dist2(s, px, py));
            }
            assert(deg_view(dv.take(0)) =~= Multiset::<(i32, i32, i32, i32, u32)>::empty());
        }
        let n = self.degenerate_segments.len();
        let mut j: usize = 0;
        while j < n
            invariant
                0 <= j <= n,
                n == dv.len(),
                dv == self.degenerate_segments@,
                tp == seg_items(self.shape_tree),
                m == self.shape_model(),
                d2 == radius_sq as int,
                px == coords.0,
                py == coords.1,
                self.wf(),
                coord_ok(px as int, py as int),
                forall|i: int|
                    0 <= i < r@.len() ==> shape_within_ok(m, px, py, d2, #[trigger] r@[i]),
                forall|s: (i32, i32, i32, i32, u32)| #[trigger]
                    tp.contains(s) && seg_record_dist2(s, px, py) <= d2 ==> r@.contains(s.4),
                forall|k: int|
                    0 <= k < j && #[trigger] deg_rec_dist2(dv[k], px, py) <= d2 ==> r@.contains(
                        dv[k].2,
                    ),
                r@.len() == shape_qualifying(tp, px, py, d2).len() + shape_qualifying(
                    deg_view(dv.take(j as int)),
                    px,
                    py,
                    d2,
                ).len(),
            decreases n - j,
        {
            let e = self.degenerate_segments[j];
            let dj = World::squared_euclidean_distance((e.0, e.1), coords);
            let ghost prev: Seq<u32> = r@;
            if dj <= radius_sq {
                r.push(e.2);
            }
            proof {
                assert(dv.take(j as int + 1) =~= dv.take(j as int).push(dv[j as int]));
                lemma_deg_view_push(dv.take(j as int), dv[j as int]);
                let rec = deg_rec(dv[j as int]);
                assert(shape_rec_dist2(rec, px, py) == deg_rec_dist2(dv[j as int], px, py));
                lemma_qualifying_insert(deg_view(dv.take(j as int)), rec, px, py, d2);
                if dj <= radius_sq {
                    assert(r@ == prev.push(e.2));
                    assert(m.contains(rec)) by {
                        lemma_deg_in_model(tp, dv, j as int);
                    }
                    assert(shape_within_ok(m, px, py, d2, e.2));
                    assert forall|k: int|
                        0 <= k < j as int + 1 && #[trigger] deg_rec_dist2(dv[k], px, py)
                            <= d2 implies r@.contains(dv[k].2) by {
                        if k < j as int {
                            let i = choose|i: int| 0 <= i < prev.len() && prev[i] == dv[k].2;
                            assert(r@[i] == dv[k].2);
                        } else {
                            assert(r@[r@.len() - 1] == dv[k].2);
                        }
                    }
                    assert forall|s: (i32, i32, i32, i32, u32)| #[trigger]
                        tp.contains(s) && seg_record_dist2(s, px, py) <= d2 implies r@.contains(
                        s.4,
                    ) by {
                        let i = choose|i: int| 0 <= i < prev.len() && prev[i] == s.4;
                        assert(r@[i] == s.4);
                    }
                    assert forall|i: int| 0 <= i < r@.len() implies shape_within_ok(
                        m,
                        px,
                        py,
                        d2,
                        #[trigger] r@[i],
                    ) by {
                        if i < prev.len() {
                            assert(r@[i] == prev[i]);
                        }
                    }
                }
            }
            j = j + 1;
        }
        proof {
            assert(dv.take(dv.len() as int) =~= dv);
            lemma_qualifying_add(tp, deg_view(dv), px, py, d2);
            assert forall|s: (i32, i32, i32, i32, u32)| #[trigger]
                m.contains(s) && shape_rec_dist2(s, px, py) <= d2 implies r@.contains(s.4) by {
                lemma_model_member(tp, dv, s);
                if tp.contains(s) {
                    assert(seg_proper(s));
                    assert(seg_record_dist2(s, px, py) == shape_rec_dist2(s, px, py));
                } else {
                    let k = choose|k: int| 0 <= k < dv.len() && s == #[trigger] deg_rec(dv[k]);
                    assert(deg_rec_dist2(dv[k], px, py) == shape_rec_dist2(s, px, py));
                    assert(dv[k].2 == s.4);
                }
            }
        }
        r
    }

    /// A tree record carrying `id` at the tree's minimal distance `d`,
    /// with every degenerate entry at least `dbound >= d` away, is a
    /// minimal record of the whole model.
    proof fn lemma_winner_tree(self, coords: (i32, i32), id: u32, d: int, dbound: int)
        requires
            self.wf(),
            seg_at_dist(seg_items(self.shape_tree), coords.0, coords.1, id, d),
            seg_min_dist_is(seg_items(self.shape_tree), coords.0, coords.1, d),
            d <= dbound,
            forall|k: int|
                0 <= k < self.degenerate_segments@.len() ==> dbound <= #[trigger] deg_rec_dist2(
                    self.degenerate_segments@[k],
                    coords.0,
                    coords.1,
                ),
        ensures
            shape_nearest_ok(self.shape_model(), coords.0, coords.1, id),
    {
        broadcast use vstd::multiset::group_multiset_axioms;

        let tp = seg_items(self.shape_tree);
        let dv = self.degenerate_segments@;
        let s = choose|s: (i32, i32, i32, i32, u32)|
            #[trigger] tp.contains(s) && s.4 == id && seg_record_dist2(s, coords.0, coords.1)
                == d;
        assert(seg_proper(s));
        assert(shape_rec_dist2(s, coords.0, coords.1) == d);
        assert(self.shape_model().contains(s));
        lemma_shape_min_combined(tp, dv, coords.0, coords.1, s, d);
        assert(shape_min_at(self.shape_model(), coords.0, coords.1, s) && s.4 == id);
    }

    /// A degenerate entry carrying `id` at the degenerate part's minimal
    /// distance `d`, with every tree record at least `dbound >= d` away,
    /// is a minimal record of the whole model.
    proof fn lemma_winner_deg(self, coords: (i32, i32), id: u32, d: int, dbound: int)
        requires
            self.wf(),
            deg_best_upto(
                self.degenerate_segments@,
                coords.0,
                coords.1,
                self.degenerate_segments@.len() as int,
                id,
                d,
            ),
            d <= dbound,
            seg_min_dist_is(seg_items(self.shape_tree), coords.0, coords.1, dbound),
        ensures
            shape_nearest_ok(self.shape_model(), coords.0, coords.1, id),
    {
        broadcast use vstd::multiset::group_multiset_axioms;

        let tp = seg_items(self.shape_tree);
        let dv = self.degenerate_segments@;
        let k = choose|k: int|
            0 <= k < dv.len() && dv[k].2 == id && #[trigger] deg_rec_dist2(
                dv[k],
                coords.0,
                coords.1,
            ) == d;
        let s = deg_rec(dv[k]);
        lemma_deg_in_model(tp, dv, k);
        assert(shape_rec_dist2(s, coords.0, coords.1) == d);
        assert(seg_min_dist_is(tp, coords.0, coords.1, d)) by {
            assert forall|f: (i32, i32, i32, i32, u32)| #[trigger]
                tp.contains(f) implies d <= seg_record_dist2(f, coords.0, coords.1) by {
                assert(dbound <= seg_record_dist2(f, coords.0, coords.1));
            }
        }
        lemma_shape_min_combined(tp, dv, coords.0, coords.1, s, d);
        assert(shape_min_at(self.shape_model(), coords.0, coords.1, s) && s.4 == id);
    }

    /// Every id of a tree tie list at the tree's minimal distance `d` is a
    /// valid nearest-shape answer when every degenerate entry is at least
    /// `dbound >= d` away.
    proof fn lemma_ties_sound_tree(self, coords: (i32, i32), ids: Seq<u32>, d: int, dbound: int)
        requires
            self.wf(),
            d <= dbound,
            forall|i: int|
                0 <= i < ids.len() ==> seg_at_dist(
                    seg_items(self.shape_tree),
                    coords.0,
                    coords.1,
                    #[trigger] ids[i],
                    d,
                ),
            seg_min_dist_is(seg_items(self.shape_tree), coords.0, coords.1, d),
            forall|k: int|
                0 <= k < self.degenerate_segments@.len() ==> dbound <= #[trigger] deg_rec_dist2(
                    self.degenerate_segments@[k],
                    coords.0,
                    coords.1,
                ),
        ensures
            forall|i: int|
                0 <= i < ids.len() ==> shape_nearest_ok(
                    self.shape_model(),
                    coords.0,
                    coords.1,
                    #[trigger] ids[i],
                ),
    {
        assert forall|i: int| 0 <= i < ids.len() implies shape_nearest_ok(
            self.shape_model(),
            coords.0,
            coords.1,
            #[trigger] ids[i],
        ) by {
            self.lemma_winner_tree(coords, ids[i], d, dbound);
        }
    }

    /// Every id of a degenerate tie list at the degenerate part's minimal
    /// distance `d` is a valid nearest-shape answer when every tree record
    /// is at least `dbound >= d` away.
    proof fn lemma_ties_sound_deg(self, coords: (i32, i32), ids: Seq<u32>, d: int, dbound: int)
        requires
            self.wf(),
            d <= dbound,
            seg_min_dist_is(seg_items(self.shape_tree), coords.0, coords.1, dbound),
            forall|i: int|
                0 <= i < ids.len() ==> deg_has_at(
                    self.degenerate_segments@,
                    coords.0,
                    coords.1,
                    d,
                    #[trigger] ids[i],
                ),
            forall|k: int|
                0 <= k < self.degenerate_segments@.len() ==> d <= #[trigger] deg_rec_dist2(
                    self.degenerate_segments@[k],
                    coords.0,
                    coords.1,
                ),
        ensures
            forall|i: int|
                0 <= i < ids.len() ==> shape_nearest_ok(
                    self.shape_model(),
                    coords.0,
                    coords.1,
                    #[trigger] ids[i],
                ),
    {
        assert forall|i: int| 0 <= i < ids.len() implies shape_nearest_ok(
            self.shape_model(),
            coords.0,
            coords.1,
            #[trigger] ids[i],
        ) by {
            let k = choose|k: int|
                0 <= k < self.degenerate_segments@.len() && self.degenerate_segments@[k].2
                    == ids[i] && #[trigger] deg_rec_dist2(
                    self.degenerate_segments@[k],
                    coords.0,
                    coords.1,
                ) == d;
            self.lemma_winner_deg(coords, ids[i], d, dbound);
        }
    }

    /// A minimal record of the model, when the tree attains the overall
    /// minimum `d`, is a tree record at exactly `d` (so the tree tie list
    /// carries its id). The last hypothesis rules the degenerate part out:
    /// it is empty, strictly farther, or the record is known not to be a
    /// tree record's rival.
    proof fn lemma_min_is_tree_tie(
        self,
        coords: (i32, i32),
        s: (i32, i32, i32, i32, u32),
        d: int,
        dbound: int,
    )
        requires
            self.wf(),
            shape_min_at(self.shape_model(), coords.0, coords.1, s),
            exists|w: (i32, i32, i32, i32, u32)|
                #[trigger] seg_items(self.shape_tree).contains(w) && seg_record_dist2(
                    w,
                    coords.0,
                    coords.1,
                ) == d,
            seg_min_dist_is(seg_items(self.shape_tree), coords.0, coords.1, d),
            d <= dbound,
            forall|k: int|
                0 <= k < self.degenerate_segments@.len() ==> dbound <= #[trigger] deg_rec_dist2(
                    self.degenerate_segments@[k],
                    coords.0,
                    coords.1,
                ),
            self.degenerate_segments@.len() == 0 || d < dbound || seg_items(
                self.shape_tree,
            ).contains(s),
        ensures
            seg_items(self.shape_tree).contains(s),
            seg_record_dist2(s, coords.0, coords.1) == d,
    {
        broadcast use vstd::multiset::group_multiset_axioms;

        let tp = seg_items(self.shape_tree);
        let dv = self.degenerate_segments@;
        let w = choose|w: (i32, i32, i32, i32, u32)|
            #[trigger] tp.contains(w) && seg_record_dist2(w, coords.0, coords.1) == d;
        assert(seg_proper(w));
        assert(self.shape_model().contains(w));
        assert(shape_rec_dist2(w, coords.0, coords.1) == d);
        assert(shape_rec_dist2(s, coords.0, coords.1) <= d);
        lemma_model_member(tp, dv, s);
        if !tp.contains(s) {
            let k = choose|k: int| 0 <= k < dv.len() && s == #[trigger] deg_rec(dv[k]);
            assert(shape_rec_dist2(s, coords.0, coords.1) == deg_rec_dist2(
                dv[k],
                coords.0,
                coords.1,
            ));
            assert(false);
        }
        assert(seg_proper(s));
        assert(shape_rec_dist2(s, coords.0, coords.1) == seg_record_dist2(
            s,
            coords.0,
            coords.1,
        ));
    }

    /// A minimal record of the model, when the degenerate part attains the
    /// overall minimum `d`, stands for a degenerate entry at exactly `d`,
    /// so the degenerate tie list carries its id.
    proof fn lemma_min_is_deg_tie(
        self,
        coords: (i32, i32),
        s: (i32, i32, i32, i32, u32),
        ids: Seq<u32>,
        d: int,
        dbound: int,
    )
        requires
            self.wf(),
            shape_min_at(self.shape_model(), coords.0, coords.1, s),
            deg_ties_upto(
                self.degenerate_segments@,
                coords.0,
                coords.1,
                d,
                self.degenerate_segments@.len() as int,
                ids,
            ),
            exists|k: int|
                0 <= k < self.degenerate_segments@.len() && #[trigger] deg_rec_dist2(
                    self.degenerate_segments@[k],
                    coords.0,
                    coords.1,
                ) == d,
            forall|k: int|
                0 <= k < self.degenerate_segments@.len() ==> d <= #[trigger] deg_rec_dist2(
                    self.degenerate_segments@[k],
                    coords.0,
                    coords.1,
                ),
            seg_min_dist_is(seg_items(self.shape_tree), coords.0, coords.1, dbound),
            d <= dbound,
            d < dbound || seg_items(self.shape_tree) == Multiset::<
                (i32, i32, i32, i32, u32),
            >::empty() || !seg_items(self.shape_tree).contains(s),
        ensures
            ids.contains(s.4),
    {
        broadcast use vstd::multiset::group_multiset_axioms;

        let tp = seg_items(self.shape_tree);
        let dv = self.degenerate_segments@;
        let k0 = choose|k: int|
            0 <= k < dv.len() && #[trigger] deg_rec_dist2(dv[k], coords.0, coords.1) == d;
        lemma_deg_in_model(tp, dv, k0);
        assert(shape_rec_dist2(deg_rec(dv[k0]), coords.0, coords.1) == d);
        assert(shape_rec_dist2(s, coords.0, coords.1) <= d);
        lemma_model_member(tp, dv, s);
        if tp.contains(s) {
            assert(seg_proper(s));
            assert(shape_rec_dist2(s, coords.0, coords.1) == seg_record_dist2(
                s,
                coords.0,
                coords.1,
            ));
            assert(dbound <= seg_record_dist2(s, coords.0, coords.1));
            assert(false);
        }
        let k = choose|k: int| 0 <= k < dv.len() && s == #[trigger] deg_rec(dv[k]);
        assert(shape_rec_dist2(s, coords.0, coords.1) == deg_rec_dist2(
            dv[k],
            coords.0,
            coords.1,
        ));
        assert(deg_rec_dist2(dv[k], coords.0, coords.1) == d);
        assert(ids.contains(dv[k].2));
        assert(dv[k].2 == s.4);
    }

    /// The nearest stored degenerate entry to a query point, with its
    /// exact squared distance; nothing if none is stored.
    fn nearest_degenerate(&self, coords: (i32, i32)) -> (r: Option<(u32, i64)>)
        requires
            self.wf(),
            coord_ok(coords.0 as int, coords.1 as int),
        ensures
            r is None <==> self.degenerate_segments@.len() == 0,
            r matches Some(p) ==> deg_best_upto(
                self.degenerate_segments@,
                coords.0,
                coords.1,
                self.degenerate_segments@.len() as int,
                p.0,
                p.1 as int,
            ),
    {
        let n = self.degenerate_segments.len();
        if n == 0 {
            return None;
        }
        let first = self.degenerate_segments[0];
        let mut best_id: u32 = first.2;
        let mut best_d: i64 = World::squared_euclidean_distance((first.0, first.1), coords);
        proof {
            assert(best_d == deg_rec_dist2(self.degenerate_segments@[0], coords.0, coords.1));
            assert(deg_best_upto(
                self.degenerate_segments@,
                coords.0,
                coords.1,
                1,
                best_id,
                best_d as int,
            ));
        }
        let mut j: usize = 1;
        while j < n
            invariant
                1 <= j <= n,
                n == self.degenerate_segments@.len(),
                self.wf(),
                coord_ok(coords.0 as int, coords.1 as int),
                deg_best_upto(
                    self.degenerate_segments@,
                    coords.0,
                    coords.1,
                    j as int,
                    best_id,
                    best_d as int,
                ),
            decreases n - j,
        {
            let e = self.degenerate_segments[j];
            let d = World::squared_euclidean_distance((e.0, e.1), coords);
            proof {
                assert(d == deg_rec_dist2(self.degenerate_segments@[j as int], coords.0, coords.1));
            }
            if d < best_d {
                best_d = d;
                best_id = e.2;
            }
            j = j + 1;
        }
        Some((best_id, best_d))
    }

    /// Every stored degenerate entry at exactly squared distance `d` from
    /// the query point, by feature id.
    fn degenerate_ties(&self, coords: (i32, i32), d: i64) -> (r: Vec<u32>)
        requires
            self.wf(),
            coord_ok(coords.0 as int, coords.1 as int),
        ensures
            deg_ties_upto(
                self.degenerate_segments@,
                coords.0,
                coords.1,
                d as int,
                self.degenerate_segments@.len() as int,
                r@,
            ),
    {
        let mut r: Vec<u32> = Vec::new();
        let n = self.degenerate_segments.len();
        let mut j: usize = 0;
        while j < n
            invariant
                0 <= j <= n,
                n == self.degenerate_segments@.len(),
                self.wf(),
                coord_ok(coords.0 as int, coords.1 as int),
                deg_ties_upto(
                    self.degenerate_segments@,
                    coords.0,
                    coords.1,
                    d as int,
                    j as int,
                    r@,
                ),
            decreases n - j,
        {
            let e = self.degenerate_segments[j];
            let dj = World::squared_euclidean_distance((e.0, e.1), coords);
            let ghost prev: Seq<u32> = r@;
            proof {
                assert(dj == deg_rec_dist2(
                    self.degenerate_segments@[j as int],
                    coords.0,
                    coords.1,
                ));
            }
            if dj == d {
                r.push(e.2);
                proof {
                    assert(r@ == prev.push(e.2));
                    assert(deg_has_at(
                        self.degenerate_segments@,
                        coords.0,
                        coords.1,
                        d as int,
                        e.2,
                    )) by {
                        assert(deg_rec_dist2(
                            self.degenerate_segments@[j as int],
                            coords.0,
                            coords.1,
                        ) == d as int);
                    }
                    assert forall|i: int| 0 <= i < r@.len() implies deg_has_at(
                        self.degenerate_segments@,
                        coords.0,
                        coords.1,
                        d as int,
                        #[trigger] r@[i],
                    ) by {
                        if i < prev.len() {
                            assert(r@[i] == prev[i]);
                        } else {
                            assert(r@[i] == e.2);
                        }
                    }
                    assert forall|k: int|
                        0 <= k < j as int + 1 && #[trigger] deg_rec_dist2(
                            self.degenerate_segments@[k],
                            coords.0,
                            coords.1,
                        ) == d as int implies r@.contains(self.degenerate_segments@[k].2) by {
                        if k < j as int {
                            let i = choose|i: int|
                                0 <= i < prev.len() && prev[i]
                                    == self.degenerate_segments@[k].2;
                            assert(r@[i] == self.degenerate_segments@[k].2);
                        } else {
                            assert(r@[r@.len() - 1] == self.degenerate_segments@[k].2);
                        }
                    }
                }
            }
            j = j + 1;
        }
        r
    }

    /// The planar squared Euclidean distance between two coordinate pairs
    /// on raw microdegree values.
    pub fn squared_euclidean_distance(p1: (i32, i32), p2: (i32, i32)) -> (r: i64)
        requires
            coord_ok(p1.0 as int, p1.1 as int),
            coord_ok(p2.0 as int, p2.1 as int),
        ensures
            r == pt_dist2(p1.0 as int, p1.1 as int, p2.0 as int, p2.1 as int),
    {
        let dx: i64 = p1.0 as i64 - p2.0 as i64;
        let dy: i64 = p1.1 as i64 - p2.1 as i64;
        proof {
            assert(dx * dx <= 360_000_000 * 360_000_000) by (nonlinear_arith)
                requires -360_000_000 <= dx <= 360_000_000;
            assert(dy * dy <= 360_000_000 * 360_000_000) by (nonlinear_arith)
                requires -360_000_000 <= dy <= 360_000_000;
            assert(dx * dx >= 0) by (nonlinear_arith);
            assert(dy * dy >= 0) by (nonlinear_arith);
        }
        dx * dx + dy * dy
    }
}

impl Default for World {
    /// The default world indexes levels 9 through 12.
    fn default() -> (w: World)
        ensures
            w.wf(),
            w.min_level == 9,
            w.max_level == 12,
            w.cells() == Map::<u64, Set<u32>>::empty(),
            w.tree is None,
            w.shape_model() == Multiset::<(i32, i32, i32, i32, u32)>::empty(),
    {
        World::new(9, 12)
    }
}

/// A placeholder for a k-d tree backed variant of [`World`]; it holds no
/// state yet.
pub struct KdWorld {}

} // verus!
