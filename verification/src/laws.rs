//! Laws relating the index operations, proved over the same spec functions
//! the operations' contracts use.

use vstd::prelude::*;
use vstd::multiset::Multiset;
use crate::cells::ancestors_distinct;
use crate::cells::cell_ancestor;
use crate::cells::some_ancestor_in;
use crate::world::covered_id;
use crate::coords::pt_dist2;
use crate::rtrees::pt_min_at;
use crate::rtrees::pt_nearest_ok;
use crate::rtrees::pt_ranked;
use crate::rtrees::pt_ranked_ids;
use crate::world::add_id;
use crate::world::insert_model;
use crate::world::segs_of;

verus! {

broadcast use vstd::multiset::group_multiset_axioms, vstd::seq_lib::group_to_multiset_ensures;

/// Whether, for every level from `lo` to `hi`, the mapping holds `id` in
/// the set of the leaf's ancestor cell at that level.
pub open spec fn has_all_levels(
    m: Map<u64, Set<u32>>,
    leaf: u64,
    lo: int,
    hi: int,
    id: u32,
) -> bool {
    forall|l: int|
        lo <= l <= hi ==> m.contains_key(#[trigger] cell_ancestor(leaf, l as u64))
            && m[cell_ancestor(leaf, l as u64)].contains(id)
}

/// Inserting never removes a membership: whatever id a cell's set held, it
/// still holds after an insertion.
pub proof fn lemma_insert_model_monotone(
    m: Map<u64, Set<u32>>,
    leaf: u64,
    lo: int,
    hi: int,
    id: u32,
    c: u64,
    x: u32,
)
    requires
        m.contains_key(c),
        m[c].contains(x),
    ensures
        insert_model(m, leaf, lo, hi, id).contains_key(c),
        insert_model(m, leaf, lo, hi, id)[c].contains(x),
    decreases hi - lo + 1,
{
    if lo <= hi {
        lemma_insert_model_monotone(m, leaf, lo, hi - 1, id, c, x);
    }
}

/// After an insertion, for every level of the inserted range, the bitmap of
/// the leaf's ancestor cell at that level contains the inserted id.
pub proof fn lemma_insert_model_contains(
    m: Map<u64, Set<u32>>,
    leaf: u64,
    lo: int,
    hi: int,
    id: u32,
    l: int,
)
    requires
        lo <= l <= hi,
    ensures
        insert_model(m, leaf, lo, hi, id).contains_key(cell_ancestor(leaf, l as u64)),
        insert_model(m, leaf, lo, hi, id)[cell_ancestor(leaf, l as u64)].contains(id),
    decreases hi - lo + 1,
{
    if l < hi {
        lemma_insert_model_contains(m, leaf, lo, hi - 1, id, l);
    }
}

/// After an insertion, every level of the inserted range holds the id.
pub proof fn lemma_insert_model_ensures_all(
    m: Map<u64, Set<u32>>,
    leaf: u64,
    lo: int,
    hi: int,
    id: u32,
)
    ensures
        has_all_levels(insert_model(m, leaf, lo, hi, id), leaf, lo, hi, id),
{
    assert forall|l: int| lo <= l <= hi implies insert_model(
        m,
        leaf,
        lo,
        hi,
        id,
    ).contains_key(#[trigger] cell_ancestor(leaf, l as u64)) && insert_model(m, leaf, lo, hi, id)[
        cell_ancestor(leaf, l as u64)
    ].contains(id) by {
        lemma_insert_model_contains(m, leaf, lo, hi, id, l);
    }
}

/// An insertion whose memberships are already all present changes nothing.
pub proof fn lemma_insert_model_noop(m: Map<u64, Set<u32>>, leaf: u64, lo: int, hi: int, id: u32)
    requires
        has_all_levels(m, leaf, lo, hi, id),
    ensures
        insert_model(m, leaf, lo, hi, id) == m,
    decreases hi - lo + 1,
{
    if lo <= hi {
        lemma_insert_model_noop(m, leaf, lo, hi - 1, id);
        let c = cell_ancestor(leaf, hi as u64);
        assert(m.contains_key(c) && m[c].contains(id));
        assert(m[c].insert(id) =~= m[c]);
        assert(add_id(m, c, id) =~= m);
    }
}

/// Whether `c` is the ancestor of `leaf` at some level from `lo` to `hi`.
pub open spec fn is_ancestor_cell(c: u64, leaf: u64, lo: int, hi: int) -> bool {
    exists|l: int| lo <= l <= hi && c == #[trigger] cell_ancestor(leaf, l as u64)
}

/// One insertion into an empty mapping populates exactly `hi - lo + 1`
/// distinct cells — the leaf's ancestors, one per level of the range,
/// distinct by hypothesis — and every populated set holds exactly the
/// inserted id.
pub proof fn lemma_insert_into_empty(leaf: u64, lo: int, hi: int, id: u32)
    requires
        0 <= lo <= hi,
        ancestors_distinct(leaf, lo, hi),
    ensures
        insert_model(Map::<u64, Set<u32>>::empty(), leaf, lo, hi, id).dom().finite(),
        insert_model(Map::<u64, Set<u32>>::empty(), leaf, lo, hi, id).dom().len() == hi - lo + 1,
        forall|c: u64|
            insert_model(Map::<u64, Set<u32>>::empty(), leaf, lo, hi, id).contains_key(c)
                <==> #[trigger] is_ancestor_cell(c, leaf, lo, hi),
        forall|c: u64| #[trigger]
            insert_model(Map::<u64, Set<u32>>::empty(), leaf, lo, hi, id).contains_key(c)
                ==> insert_model(Map::<u64, Set<u32>>::empty(), leaf, lo, hi, id)[c] == Set::<
                u32,
            >::empty().insert(id),
    decreases hi - lo,
{
    let e = Map::<u64, Set<u32>>::empty();
    let r = insert_model(e, leaf, lo, hi, id);
    let c_hi = cell_ancestor(leaf, hi as u64);
    let r0 = insert_model(e, leaf, lo, hi - 1, id);
    assert(r == add_id(r0, c_hi, id));
    if lo == hi {
        assert(r0 == e);
        assert(r =~= e.insert(c_hi, Set::<u32>::empty().insert(id)));
        assert(r.dom() =~= Set::<u64>::empty().insert(c_hi));
        assert forall|c: u64| r.contains_key(c) implies #[trigger] is_ancestor_cell(
            c,
            leaf,
            lo,
            hi,
        ) by {
            assert(c == cell_ancestor(leaf, hi as u64));
        }
        assert forall|c: u64| #[trigger] is_ancestor_cell(c, leaf, lo, hi) implies r.contains_key(
            c,
        ) by {
            let l = choose|l: int| lo <= l <= hi && c == #[trigger] cell_ancestor(leaf, l as u64);
            assert(l == hi);
        }
    } else {
        lemma_insert_into_empty(leaf, lo, hi - 1, id);
        assert(!r0.contains_key(c_hi)) by {
            if r0.contains_key(c_hi) {
                assert(is_ancestor_cell(c_hi, leaf, lo, hi - 1));
                let l = choose|l: int|
                    lo <= l <= hi - 1 && c_hi == #[trigger] cell_ancestor(leaf, l as u64);
                assert(cell_ancestor(leaf, l as u64) != cell_ancestor(leaf, hi as u64));
                assert(false);
            }
        }
        assert(r =~= r0.insert(c_hi, Set::<u32>::empty().insert(id)));
        assert(r.dom() =~= r0.dom().insert(c_hi));
        assert forall|c: u64| r.contains_key(c) implies #[trigger] is_ancestor_cell(
            c,
            leaf,
            lo,
            hi,
        ) by {
            if c == c_hi {
                assert(c == cell_ancestor(leaf, hi as u64));
            } else {
                assert(r0.contains_key(c));
                assert(is_ancestor_cell(c, leaf, lo, hi - 1));
                let l = choose|l: int|
                    lo <= l <= hi - 1 && c == #[trigger] cell_ancestor(leaf, l as u64);
                assert(c == cell_ancestor(leaf, l as u64));
            }
        }
        assert forall|c: u64| #[trigger] is_ancestor_cell(c, leaf, lo, hi) implies r.contains_key(
            c,
        ) by {
            let l = choose|l: int| lo <= l <= hi && c == #[trigger] cell_ancestor(leaf, l as u64);
            if l <= hi - 1 {
                assert(is_ancestor_cell(c, leaf, lo, hi - 1));
            }
        }
    }
}

/// A covering holding an ancestor of a point's leaf cell, over a mapping
/// populated for that leaf at every level of the range, reports the id: a
/// zero-radius query around a freshly inserted point finds it.
pub proof fn lemma_covering_finds_inserted(
    cells: Map<u64, Set<u32>>,
    cov: Seq<u64>,
    leaf: u64,
    lo: int,
    hi: int,
    id: u32,
)
    requires
        has_all_levels(cells, leaf, lo, hi, id),
        some_ancestor_in(cov, leaf, lo, hi),
    ensures
        covered_id(cells, cov, id),
{
    let (j, l) = choose|j: int, l: int|
        #![trigger cov[j], cell_ancestor(leaf, l as u64)]
        0 <= j < cov.len() && lo <= l <= hi && cov[j] == cell_ancestor(leaf, l as u64);
    assert(cells.contains_key(cell_ancestor(leaf, l as u64)) && cells[cell_ancestor(
        leaf,
        l as u64,
    )].contains(id));
    assert(cells[cov[j]].contains(id));
}

/// Cell-bitmap insertion is idempotent: repeating the same insertion leaves
/// the whole mapping, hence every bitmap's contents and cardinality,
/// unchanged.
pub proof fn lemma_insert_model_idempotent(
    m: Map<u64, Set<u32>>,
    leaf: u64,
    lo: int,
    hi: int,
    id: u32,
)
    ensures
        insert_model(insert_model(m, leaf, lo, hi, id), leaf, lo, hi, id) == insert_model(
            m,
            leaf,
            lo,
            hi,
            id,
        ),
{
    lemma_insert_model_ensures_all(m, leaf, lo, hi, id);
    lemma_insert_model_noop(insert_model(m, leaf, lo, hi, id), leaf, lo, hi, id);
}

/// Exact self-lookup: if the built records hold a record at exactly the
/// query coordinates, and every record at those coordinates carries the
/// same id, then a nearest query at those coordinates answers that id.
pub proof fn lemma_nearest_exact_self(
    m: Multiset<(i32, i32, u32)>,
    px: i32,
    py: i32,
    id0: u32,
    id: u32,
)
    requires
        m.contains((px, py, id0)),
        forall|e: (i32, i32, u32)| #[trigger] m.contains(e) && e.0 == px && e.1 == py ==> e.2 == id0,
        pt_nearest_ok(m, px as int, py as int, id),
    ensures
        id == id0,
{
    let e = choose|e: (i32, i32, u32)| #[trigger] pt_min_at(m, px as int, py as int, e) && e.2 == id;
    assert(m.contains((px, py, id0)));
    assert(pt_dist2(px as int, py as int, px as int, py as int) == 0);
    let dx = e.0 as int - px as int;
    let dy = e.1 as int - py as int;
    assert(dx * dx >= 0) by (nonlinear_arith);
    assert(dy * dy >= 0) by (nonlinear_arith);
    assert(dx * dx + dy * dy <= 0);
    assert(dx == 0 && dy == 0) by (nonlinear_arith)
        requires
            dx * dx >= 0,
            dy * dy >= 0,
            dx * dx + dy * dy <= 0,
    ;
    assert(e.0 == px && e.1 == py);
}

/// A ranked query with a budget of at least the number of built records
/// returns them all: its answer has one entry per record and carries every
/// record's id; its order is non-decreasing in distance by construction.
pub proof fn lemma_nearest_vec_complete(
    m: Multiset<(i32, i32, u32)>,
    px: int,
    py: int,
    k: int,
    ids: Seq<u32>,
    id: u32,
)
    requires
        pt_ranked_ids(m, px, py, k, ids),
        k >= m.len(),
        exists|e: (i32, i32, u32)| #[trigger] m.contains(e) && e.2 == id,
    ensures
        ids.len() == m.len(),
        ids.contains(id),
{
    let s = choose|s: Seq<(i32, i32, u32)>|
        #[trigger] pt_ranked(m, px, py, k, s) && ids.len() == s.len() && (forall|i: int|
            0 <= i < s.len() ==> ids[i] == s[i].2);
    let e = choose|e: (i32, i32, u32)| #[trigger] m.contains(e) && e.2 == id;
    s.to_multiset_ensures();
    assert(s.to_multiset() == m);
    assert(s.contains(e));
    let i = choose|i: int| 0 <= i < s.len() && s[i] == e;
    assert(ids[i] == id);
}

/// A polyline of fewer than two points contributes no segment record: the
/// shape neighbor index is left unchanged.
pub proof fn lemma_short_polyline_noop(
    m: Multiset<(i32, i32, i32, i32, u32)>,
    coords: Seq<(i32, i32)>,
    id: u32,
)
    requires
        coords.len() < 2,
    ensures
        m.add(segs_of(coords, id)) == m,
{
    assert(m.add(segs_of(coords, id)) =~= m);
}

} // verus!
