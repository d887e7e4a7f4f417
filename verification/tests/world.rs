//! End-to-end tests of the World coordinator. Coordinates are integer
//! microdegrees: 10.001 degrees is written 10_001_000.

use geoworld::World;
use geoworld::WorldError;
use geoworld::TreePoint;
use s2::cellid::CellID;
use s2::latlng::LatLng;
use s2::s1::angle::Angle;
use s2::s1::angle::E6;

fn leaf_of(lat: i32, lng: i32) -> CellID {
    CellID::from(LatLng::new(Angle::from(E6(lat)), Angle::from(E6(lng))))
}

#[test]
fn insert_populates_every_level() {
    let mut w = World::new(9, 12);
    w.insert((10_000_000, 10_000_000), 1);
    let leaf = leaf_of(10_000_000, 10_000_000);
    for level in 9..=12u64 {
        let cell = leaf.parent(level).0;
        let bm = w.cellid_map.get(&cell).expect("level cell must be present");
        assert!(bm.contains(1));
        assert_eq!(bm.cardinality(), 1);
    }
    assert_eq!(w.cellid_map.len(), 4);
}

#[test]
fn insert_is_idempotent() {
    let mut w = World::new(9, 12);
    w.insert((10_000_000, 10_000_000), 1);
    let before: Vec<(u64, u64)> = (9..=12u64)
        .map(|l| {
            let cell = leaf_of(10_000_000, 10_000_000).parent(l).0;
            (cell, w.cellid_map.get(&cell).unwrap().cardinality())
        })
        .collect();
    w.insert((10_000_000, 10_000_000), 1);
    assert_eq!(w.cellid_map.len(), 4);
    for (cell, card) in before {
        assert_eq!(w.cellid_map.get(&cell).unwrap().cardinality(), card);
    }
}

#[test]
fn within_radius_zero_finds_fresh_point() {
    let mut w = World::new(9, 12);
    w.insert((10_000_000, 10_000_000), 7);
    let found = w.within_radius((10_000_000, 10_000_000), 0, 8);
    assert!(found.contains(7));
}

#[test]
fn within_radius_on_empty_world_is_empty() {
    let w = World::new(9, 12);
    let found = w.within_radius((10_000_000, 10_000_000), 5_000, 8);
    assert_eq!(found.cardinality(), 0);
}

#[test]
fn within_radius_finds_nearby_feature() {
    let mut w = World::new(9, 12);
    // About 500 m north of the query point (0.0045 degrees of latitude).
    w.insert((10_004_500, 10_000_000), 7);
    let found = w.within_radius((10_000_000, 10_000_000), 1_000, 16);
    assert!(found.contains(7));
}

#[test]
fn within_radius_misses_far_feature() {
    let mut w = World::new(9, 12);
    w.insert((10_000_000, 10_000_000), 7);
    // Roughly 10 degrees away: far beyond a 1 km radius.
    let found = w.within_radius((20_000_000, 20_000_000), 1_000, 8);
    assert!(!found.contains(7));
}

#[test]
fn nearest_before_build_is_not_built() {
    let w = World::new(9, 12);
    assert_eq!(w.nearest((0, 0)), Err(WorldError::NotBuilt));
    assert_eq!(w.nearest((10_000_000, -10_000_000)), Err(WorldError::NotBuilt));
}

#[test]
fn nearest_vec_before_build_is_not_built() {
    let w = World::new(9, 12);
    assert_eq!(w.nearest_vec((0, 0), 5), Err(WorldError::NotBuilt));
    assert_eq!(w.nearest_vec((-5_000_000, 4_000_000), 0), Err(WorldError::NotBuilt));
}

#[test]
fn nearest_on_empty_build_is_no_result() {
    let mut w = World::new(9, 12);
    w.build_reverse_geocode_index(Vec::new());
    assert_eq!(w.nearest((0, 0)), Err(WorldError::NoResult));
    assert_eq!(w.nearest_vec((0, 0), 5), Ok(Vec::new()));
}

#[test]
fn nearest_pair_scenario() {
    let mut w = World::new(9, 12);
    w.insert((10_000_000, 10_000_000), 1);
    w.insert((10_001_000, 10_001_000), 2);
    w.build_reverse_geocode_index(vec![
        TreePoint(10_000_000, 10_000_000, 1),
        TreePoint(10_001_000, 10_001_000, 2),
    ]);
    assert_eq!(w.nearest((10_000_000, 10_000_000)), Ok(1));
    assert_eq!(w.nearest_vec((10_000_000, 10_000_000), 2), Ok(vec![1, 2]));
}

#[test]
fn nearest_exact_self_lookup_for_every_record() {
    let points = [
        TreePoint(10_000_000, 10_000_000, 1),
        TreePoint(10_001_000, 10_001_000, 2),
        TreePoint(-20_000_000, 30_000_000, 3),
        TreePoint(0, 0, 4),
    ];
    let mut w = World::new(9, 12);
    w.build_reverse_geocode_index(points.to_vec());
    for p in &points {
        assert_eq!(w.nearest((p.0, p.1)), Ok(p.2));
    }
}

#[test]
fn nearest_vec_returns_all_in_distance_order() {
    let mut w = World::new(9, 12);
    w.build_reverse_geocode_index(vec![
        TreePoint(0, 3_000, 30),
        TreePoint(0, 1_000, 10),
        TreePoint(0, 2_000, 20),
    ]);
    assert_eq!(w.nearest_vec((0, 0), 3), Ok(vec![10, 20, 30]));
    assert_eq!(w.nearest_vec((0, 0), 10), Ok(vec![10, 20, 30]));
    assert_eq!(w.nearest_vec((0, 0), 1), Ok(vec![10]));
}

#[test]
fn build_replaces_previous_index() {
    let mut w = World::new(9, 12);
    w.build_reverse_geocode_index(vec![TreePoint(0, 0, 1)]);
    assert_eq!(w.nearest((0, 0)), Ok(1));
    w.build_reverse_geocode_index(vec![TreePoint(0, 0, 2)]);
    assert_eq!(w.nearest((0, 0)), Ok(2));
}

#[test]
fn short_polylines_leave_shape_index_unchanged() {
    let mut w = World::new(9, 12);
    w.insert_shape(Vec::new(), 9);
    w.insert_shape(vec![(1_000_000, 1_000_000)], 9);
    assert_eq!(w.nearest_shape((1_000_000, 1_000_000)), None);
    assert_eq!(w.nearest_shapes((1_000_000, 1_000_000)), None);
    assert_eq!(w.shapes_within_radius((1_000_000, 1_000_000), 1_000_000), Vec::<u32>::new());
}

#[test]
fn polyline_scenario() {
    let mut w = World::new(9, 12);
    w.insert_shape(vec![(0, 0), (0, 1_000_000), (0, 2_000_000)], 5);
    assert_eq!(w.nearest_shape((0, 500_000)), Some(5));
    // A squared radius of four square degrees in raw units.
    assert!(w.shapes_within_radius((0, 500_000), 4_000_000_000_000).contains(&5));
}

#[test]
fn degenerate_segments_are_indexed() {
    let mut w = World::new(9, 12);
    w.insert_shape(vec![(0, 0), (0, 0)], 9);
    assert_eq!(w.nearest_shape((0, 0)), Some(9));
    assert_eq!(w.nearest_shape((1_000_000, 1_000_000)), Some(9));
    assert_eq!(w.nearest_shapes((0, 0)), Some(vec![9]));
    assert!(w.shapes_within_radius((0, 0), 0).contains(&9));
    assert!(!w.shapes_within_radius((500_000, 0), 1_000_000).contains(&9));
}

#[test]
fn degenerate_pair_within_polyline_is_kept() {
    let mut w = World::new(9, 12);
    w.insert_shape(vec![(0, 0), (0, 0), (0, 1_000_000)], 5);
    assert_eq!(w.nearest_shape((0, 0)), Some(5));
    assert_eq!(w.nearest_shape((0, 500_000)), Some(5));
    // Two records qualify: the zero-length pair and the proper segment.
    let near = w.shapes_within_radius((0, 0), 4_000_000_000_000);
    assert_eq!(near.len(), 2);
    assert!(near.iter().all(|id| *id == 5));
}

#[test]
fn nearest_shapes_ties_across_parts() {
    let mut w = World::new(9, 12);
    w.insert_shape(vec![(0, 1_000_000), (0, 1_000_000)], 1);
    w.insert_shape(vec![(1_000_000, 0), (1_000_000, 2_000_000)], 2);
    let ids = w.nearest_shapes((0, 0)).expect("both shapes present");
    assert_eq!(ids.len(), 2);
    assert!(ids.contains(&1));
    assert!(ids.contains(&2));
}

#[test]
fn shapes_within_radius_counts_each_record() {
    let mut w = World::new(9, 12);
    w.insert_shape(vec![(0, 0), (0, 1_000_000)], 4);
    w.insert_shape(vec![(0, 0), (0, 1_000_000)], 4);
    let near = w.shapes_within_radius((0, 0), 1_000_000_000_000);
    assert_eq!(near.len(), 2);
}

#[test]
fn nearest_shapes_reports_ties() {
    let mut w = World::new(9, 12);
    w.insert_shape(vec![(1_000_000, 0), (1_000_000, 1_000_000)], 1);
    w.insert_shape(vec![(-1_000_000, 0), (-1_000_000, 1_000_000)], 2);
    let ids = w.nearest_shapes((0, 500_000)).expect("two shapes present");
    assert_eq!(ids.len(), 2);
    assert!(ids.contains(&1));
    assert!(ids.contains(&2));
}

#[test]
fn insert_shapes_skips_only_short_polylines() {
    let mut w = World::new(9, 12);
    w.insert_shapes(
        vec![
            vec![(0, 0), (0, 1_000_000)],
            vec![(5_000_000, 5_000_000)],
            vec![(10_000_000, 0), (10_000_000, 1_000_000)],
        ],
        3,
    );
    // The polyline after the short one is still inserted.
    assert_eq!(w.nearest_shape((10_000_000, 500_000)), Some(3));
    assert_eq!(w.nearest_shape((0, 500_000)), Some(3));
}

#[test]
fn insert_shapes_accumulates_feature_ids() {
    let mut w = World::new(9, 12);
    w.insert_shapes(vec![vec![(0, 0), (0, 1_000_000)]], 1);
    w.insert_shapes(vec![vec![(2_000_000, 0), (2_000_000, 1_000_000)]], 2);
    let near = w.shapes_within_radius((1_000_000, 500_000), 2_000_000_000_000);
    assert!(near.contains(&1));
    assert!(near.contains(&2));
}

#[test]
fn shapes_within_radius_respects_the_bound() {
    let mut w = World::new(9, 12);
    w.insert_shape(vec![(0, 0), (0, 1_000_000)], 1);
    w.insert_shape(vec![(10_000_000, 0), (10_000_000, 1_000_000)], 2);
    let near = w.shapes_within_radius((0, 0), 1_000_000_000_000);
    assert!(near.contains(&1));
    assert!(!near.contains(&2));
}

#[test]
fn squared_euclidean_distance_exact_values() {
    assert_eq!(World::squared_euclidean_distance((3, 4), (0, 0)), 25);
    assert_eq!(World::squared_euclidean_distance((0, 0), (0, 0)), 0);
    assert_eq!(
        World::squared_euclidean_distance((90_000_000, 180_000_000), (-90_000_000, -180_000_000)),
        180_000_000i64 * 180_000_000 + 360_000_000i64 * 360_000_000
    );
}

#[test]
fn default_world_levels() {
    let w = World::default();
    assert_eq!(w.min_level, 9);
    assert_eq!(w.max_level, 12);
    assert_eq!(w.nearest((0, 0)), Err(WorldError::NotBuilt));
}

#[test]
fn same_feature_id_in_several_indexes() {
    let mut w = World::new(9, 12);
    w.insert((0, 0), 42);
    w.build_reverse_geocode_index(vec![TreePoint(0, 0, 42)]);
    w.insert_shape(vec![(0, 0), (0, 1_000_000)], 42);
    assert!(w.within_radius((0, 0), 0, 8).contains(42));
    assert_eq!(w.nearest((0, 0)), Ok(42));
    assert_eq!(w.nearest_shape((0, 0)), Some(42));
}
