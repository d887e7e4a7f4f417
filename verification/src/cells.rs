//! The spherical-geometry collaborator of the cell-bitmap index.
//!
//! s2 decomposes the sphere into a hierarchy of cells with 64-bit
//! identifiers; levels run from 0 (coarsest) to 30 (leaf). The index needs
//! three services of it: the leaf cell of a coordinate pair, the ancestor of
//! a cell at a level, and a covering of a circular cap by cells whose levels
//! lie in a bounded range. The leaf cell and the covering are deterministic
//! functions of the arguments alone and are given names here, which the
//! trusted wrappers state their results over. The ancestor computation is
//! two lines of bit arithmetic on the identifier, so it is written and
//! verified here directly ([`cell_ancestor`], [`cell_parent`]) rather than
//! taken on trust.

use vstd::prelude::*;
use crate::coords::coord_ok;
use s2::cap::Cap;
use s2::cellid::CellID;
use s2::latlng::LatLng;
use s2::region::RegionCoverer;
use s2::s1::angle::Angle;
use s2::s1::angle::E6;
use s2::s1::chordangle::ChordAngle;

verus! {

/// The leaf cell identifier of a `(latitude, longitude)` pair of
/// microdegrees.
pub uninterp spec fn leaf_cell_of(lat: i32, lng: i32) -> u64;

/// The lowest set bit of a cell identifier at `level`: the identifier
/// scheme stores a cell's level as the position of its lowest set bit, two
/// bit positions per level below the 30-level leaf.
pub open spec fn level_lsb(level: u64) -> u64
    recommends
        level <= 30,
{
    1u64 << ((60 - 2 * level) as u64)
}

/// The ancestor identifier of `cell` at `level`: the position bits above
/// the level's lowest set bit are kept and that bit is planted. This is
/// the cell-id scheme's ancestor computation, stated directly; for a cell
/// at a level of at least `level` it is the ancestor at `level`.
pub open spec fn cell_ancestor(cell: u64, level: u64) -> u64
    recommends
        level <= 30,
{
    (cell & !((level_lsb(level) - 1) as u64)) | level_lsb(level)
}

/// Ancestor identifiers at distinct levels are distinct: they differ in
/// the position of their lowest set bit.
pub proof fn lemma_ancestor_distinct(cell: u64, l1: u64, l2: u64)
    requires
        l1 <= 30,
        l2 <= 30,
        l1 != l2,
    ensures
        cell_ancestor(cell, l1) != cell_ancestor(cell, l2),
{
    let s1: u64 = (60 - 2 * l1) as u64;
    let s2: u64 = (60 - 2 * l2) as u64;
    assert(level_lsb(l1) == 1u64 << s1);
    assert(level_lsb(l2) == 1u64 << s2);
    assert(((cell & !(((1u64 << s1) - 1) as u64)) | (1u64 << s1)) != ((cell & !(((1u64 << s2)
        - 1) as u64)) | (1u64 << s2))) by (bit_vector)
        requires
            s1 != s2,
            s1 <= 60,
            s2 <= 60,
    ;
}

/// The covering of the circular cap centered at `(lat, lng)` microdegrees
/// with angular radius `angle_e6` microdegrees, by at most roughly
/// `max_cells` cells with levels between `min_level` and `max_level`.
pub uninterp spec fn cap_covering(
    lat: i32,
    lng: i32,
    angle_e6: i32,
    min_level: u64,
    max_level: u64,
    max_cells: usize,
) -> Seq<u64>;

/// Relies on s2's `CellID::from(LatLng)`: the leaf cell is a function of the
/// coordinates alone.
#[verifier::external_body]
pub(crate) fn cell_of_coords(lat: i32, lng: i32) -> (r: u64)
    requires
        coord_ok(lat as int, lng as int),
    ensures
        r == leaf_cell_of(lat, lng),
{
    let ll = LatLng::new(Angle::from(E6(lat)), Angle::from(E6(lng)));
    CellID::from(ll).0
}

/// Whether the ancestors of `leaf` at distinct levels from `lo` to `hi`
/// are distinct cells.
pub open spec fn ancestors_distinct(leaf: u64, lo: int, hi: int) -> bool {
    forall|l1: int, l2: int|
        #![trigger cell_ancestor(leaf, l1 as u64), cell_ancestor(leaf, l2 as u64)]
        lo <= l1 <= hi && lo <= l2 <= hi && l1 != l2 ==> cell_ancestor(leaf, l1 as u64)
            != cell_ancestor(leaf, l2 as u64)
}

/// Whether some cell of `cov` is the ancestor, at some level from `lo` to
/// `hi`, of the cell `leaf`.
pub open spec fn some_ancestor_in(cov: Seq<u64>, leaf: u64, lo: int, hi: int) -> bool {
    exists|j: int, l: int|
        #![trigger cov[j], cell_ancestor(leaf, l as u64)]
        0 <= j < cov.len() && lo <= l <= hi && cov[j] == cell_ancestor(leaf, l as u64)
}

/// The ancestor of `cell` at `level`, computed as [`cell_ancestor`] states
/// it: keep the bits above the level's lowest set bit and plant that bit.
pub(crate) fn cell_parent(cell: u64, level: u64) -> (r: u64)
    requires
        level <= 30,
    ensures
        r == cell_ancestor(cell, level),
        forall|l2: u64| l2 <= 30 && l2 != level ==> r != #[trigger] cell_ancestor(cell, l2),
{
    let shift: u64 = 60 - 2 * level;
    let lsb: u64 = 1u64 << shift;
    proof {
        assert(1u64 << shift >= 1) by (bit_vector)
            requires
                shift <= 60,
        ;
    }
    let r = (cell & !(lsb - 1)) | lsb;
    proof {
        assert(lsb == level_lsb(level));
        assert(r == cell_ancestor(cell, level));
        assert forall|l2: u64| l2 <= 30 && l2 != level implies r != #[trigger] cell_ancestor(
            cell,
            l2,
        ) by {
            lemma_ancestor_distinct(cell, level, l2);
        }
    }
    r
}

/// Relies on s2's `RegionCoverer::covering` over a spherical cap built with
/// `Cap::from_center_chordangle`: the covering is a deterministic function
/// of the center, the angular radius, the level bounds and the cell budget.
/// The coverer is run with `level_mod` 1, the finest legal granularity (its
/// documented range is 1 to 3; with 1 a candidate at `max_level` is
/// terminal, so the covering's levels stay between `min_level` and
/// `max_level`, `min_level` taking priority over the cell budget). The
/// covering covers the whole cap, and the cap contains its own center; so
/// some returned cell contains the center, and a cell containing a point
/// is the ancestor of that point's leaf cell at the containing cell's
/// level. The one caveat: for a center lying exactly on a cell boundary of
/// the float geometry, the cell the coverer picks could in principle be
/// the neighbor of the leaf's ancestor rather than the ancestor itself;
/// such a hairline disagreement between s2's two conversion paths is
/// assumed absent here.
#[verifier::external_body]
pub(crate) fn cover_cap(
    lat: i32,
    lng: i32,
    angle_e6: i32,
    min_level: u64,
    max_level: u64,
    max_cells: usize,
) -> (r: Vec<u64>)
    requires
        coord_ok(lat as int, lng as int),
        0 <= angle_e6,
        min_level <= max_level,
        max_level <= 30,
    ensures
        r@ == cap_covering(lat, lng, angle_e6, min_level, max_level, max_cells),
        some_ancestor_in(r@, leaf_cell_of(lat, lng), min_level as int, max_level as int),
{
    let ll = LatLng::new(Angle::from(E6(lat)), Angle::from(E6(lng)));
    let radius = ChordAngle::from(Angle::from(E6(angle_e6)));
    let cap = Cap::from_center_chordangle(&s2::point::Point::from(ll), &radius);
    let rc = RegionCoverer {
        min_level: min_level as u8,
        max_level: max_level as u8,
        level_mod: 1,
        max_cells,
    };
    rc.covering(&cap).0.iter().map(|c| c.0).collect()
}

} // verus!
