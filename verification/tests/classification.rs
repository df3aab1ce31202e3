use points_in_poly::aggregate::{Aggregator, Phase, Point};
use points_in_poly::geometry::Coord;
use points_in_poly::naming::country_borders;
use points_in_poly::polygon::{InvalidGeometryError, Polygon};
use points_in_poly::resolver::find_nearest_region;
use points_in_poly::PROXIMITY_THRESHOLD_M;

fn c(x: i64, y: i64) -> Coord {
    Coord { x, y }
}

fn ring(pts: &[(i64, i64)]) -> Vec<Coord> {
    pts.iter().map(|&(x, y)| c(x, y)).collect()
}

fn poly(rings: Vec<Vec<Coord>>) -> Polygon {
    match Polygon::try_new(rings) {
        Ok(p) => p,
        Err(_) => panic!("geometry should be valid"),
    }
}

/// The unit-square region with a central hole used across the scenarios.
fn square_with_hole() -> Polygon {
    poly(vec![
        ring(&[(0, 0), (10, 0), (10, 10), (0, 10)]),
        ring(&[(4, 4), (6, 4), (6, 6), (4, 6)]),
    ])
}

fn pt(id: &str, x: i64, y: i64) -> Point {
    Point {
        id: id.to_string(),
        pos: c(x, y),
    }
}

#[test]
fn construction_rejects_empty_ring_sequence() {
    assert_eq!(Polygon::try_new(vec![]).err(), Some(InvalidGeometryError));
}

#[test]
fn construction_rejects_short_ring() {
    let rings = vec![ring(&[(0, 0), (10, 0)])];
    assert_eq!(Polygon::try_new(rings).err(), Some(InvalidGeometryError));
}

#[test]
fn construction_rejects_short_hole() {
    let rings = vec![
        ring(&[(0, 0), (10, 0), (10, 10), (0, 10)]),
        ring(&[(4, 4)]),
    ];
    assert_eq!(Polygon::try_new(rings).err(), Some(InvalidGeometryError));
}

#[test]
fn construction_accepts_square_with_hole() {
    assert!(Polygon::try_new(vec![
        ring(&[(0, 0), (10, 0), (10, 10), (0, 10)]),
        ring(&[(4, 4), (6, 4), (6, 6), (4, 6)]),
    ])
    .is_ok());
}

#[test]
fn interior_point_is_contained() {
    let p = square_with_hole();
    assert!(p.contains(c(2, 2)));
}

#[test]
fn hole_interior_point_is_excluded() {
    let p = square_with_hole();
    assert!(!p.contains(c(5, 5)));
}

#[test]
fn outer_boundary_point_is_contained() {
    let p = square_with_hole();
    assert!(p.contains(c(10, 5)));
    assert!(p.contains(c(0, 0)));
    assert!(p.contains(c(7, 10)));
}

#[test]
fn hole_boundary_point_is_contained() {
    // the boundary convention is uniform: a point exactly on a hole's edge
    // counts as contained by the region
    let p = square_with_hole();
    assert!(p.contains(c(4, 5)));
}

#[test]
fn exterior_point_is_not_contained() {
    let p = square_with_hole();
    assert!(!p.contains(c(11, 5)));
    assert!(!p.contains(c(-1, -1)));
}

#[test]
fn nearest_region_picks_minimum() {
    let row = vec![Some(30_000u64), Some(20_000), Some(40_000)];
    assert_eq!(find_nearest_region(&row, PROXIMITY_THRESHOLD_M), Some(1));
}

#[test]
fn nearest_region_skips_missing_entries() {
    let row = vec![None, Some(10_000u64), None];
    assert_eq!(find_nearest_region(&row, PROXIMITY_THRESHOLD_M), Some(1));
}

#[test]
fn nearest_region_of_empty_row_is_none() {
    let row: Vec<Option<u64>> = vec![];
    assert_eq!(find_nearest_region(&row, PROXIMITY_THRESHOLD_M), None);
}

#[test]
fn distance_exactly_at_threshold_is_excluded() {
    let row = vec![Some(PROXIMITY_THRESHOLD_M)];
    assert_eq!(find_nearest_region(&row, PROXIMITY_THRESHOLD_M), None);
}

#[test]
fn distance_one_under_threshold_is_included() {
    let row = vec![Some(PROXIMITY_THRESHOLD_M - 1)];
    assert_eq!(find_nearest_region(&row, PROXIMITY_THRESHOLD_M), Some(0));
}

#[test]
fn far_distances_leave_point_unmatched() {
    // nearest region boundary 80,000 m away: over the threshold, no match
    let row = vec![Some(80_000u64)];
    assert_eq!(find_nearest_region(&row, PROXIMITY_THRESHOLD_M), None);
}

#[test]
fn equidistant_regions_tie_break_on_input_order() {
    let row = vec![Some(7_000u64), Some(7_000)];
    assert_eq!(find_nearest_region(&row, PROXIMITY_THRESHOLD_M), Some(0));
    let row2 = vec![None, Some(5_000u64), Some(5_000)];
    assert_eq!(find_nearest_region(&row2, PROXIMITY_THRESHOLD_M), Some(1));
}

#[test]
fn aggregator_walks_the_phases() {
    let mut agg = Aggregator::new();
    assert_eq!(agg.phase, Phase::Empty);
    let regions = vec![square_with_hole()];
    let points = vec![pt("AAAA", 2, 2)];
    agg.run_containment(&regions, &points);
    assert_eq!(agg.phase, Phase::ContainmentDone);
    let dists: Vec<Vec<Option<u64>>> = vec![];
    agg.run_proximity(&dists, PROXIMITY_THRESHOLD_M);
    assert_eq!(agg.phase, Phase::Finalized);
}

#[test]
fn containment_pass_assigns_and_pools() {
    // the hole scenario: (2,2) joins the region directly, (5,5) sits in the
    // hole and falls through to the proximity phase
    let regions = vec![square_with_hole()];
    let points = vec![pt("AAAA", 2, 2), pt("BBBB", 5, 5)];
    let mut agg = Aggregator::new();
    agg.run_containment(&regions, &points);
    assert_eq!(agg.region_sets, vec![vec![0usize]]);
    assert_eq!(agg.pool, vec![1usize]);
}

#[test]
fn proximity_pass_assigns_near_pool_point() {
    let regions = vec![square_with_hole()];
    let points = vec![pt("AAAA", 2, 2), pt("BBBB", 5, 5)];
    let mut agg = Aggregator::new();
    agg.run_containment(&regions, &points);
    let dists = vec![vec![Some(1_000u64)]];
    agg.run_proximity(&dists, PROXIMITY_THRESHOLD_M);
    let out = agg.output(&points);
    assert_eq!(out.assignments, vec![vec!["AAAA".to_string(), "BBBB".to_string()]]);
    assert!(out.unassigned.is_empty());
}

#[test]
fn far_point_stays_unassigned() {
    let regions = vec![square_with_hole()];
    let points = vec![pt("FARR", 100, 100)];
    let mut agg = Aggregator::new();
    agg.run_containment(&regions, &points);
    assert_eq!(agg.pool, vec![0usize]);
    let dists = vec![vec![Some(80_000u64)]];
    agg.run_proximity(&dists, PROXIMITY_THRESHOLD_M);
    let out = agg.output(&points);
    assert_eq!(out.assignments, vec![Vec::<String>::new()]);
    assert_eq!(out.unassigned, vec!["FARR".to_string()]);
}

#[test]
fn overlapping_regions_first_in_order_wins() {
    let a = poly(vec![ring(&[(0, 0), (10, 0), (10, 10), (0, 10)])]);
    let b = poly(vec![ring(&[(5, 0), (15, 0), (15, 10), (5, 10)])]);
    let points = vec![pt("MIDD", 7, 5)];
    let mut agg = Aggregator::new();
    agg.run_containment(&vec![a, b], &points);
    assert_eq!(agg.region_sets, vec![vec![0usize], vec![]]);
}

#[test]
fn every_point_lands_in_exactly_one_place() {
    let r0 = poly(vec![ring(&[(0, 0), (10, 0), (10, 10), (0, 10)])]);
    let r1 = poly(vec![ring(&[(20, 0), (30, 0), (30, 10), (20, 10)])]);
    let regions = vec![r0, r1];
    let points = vec![
        pt("INR0", 2, 2),
        pt("INR1", 25, 5),
        pt("LOST", 50, 50),
        pt("NEAR", 15, 5),
    ];
    let mut agg = Aggregator::new();
    agg.run_containment(&regions, &points);
    assert_eq!(agg.pool, vec![2usize, 3]);
    let dists = vec![
        vec![Some(60_000u64), Some(55_000)],
        vec![Some(5_000u64), Some(5_000)],
    ];
    agg.run_proximity(&dists, PROXIMITY_THRESHOLD_M);
    let out = agg.output(&points);
    assert_eq!(
        out.assignments,
        vec![
            vec!["INR0".to_string(), "NEAR".to_string()],
            vec!["INR1".to_string()],
        ]
    );
    assert_eq!(out.unassigned, vec!["LOST".to_string()]);
    // partition: each input id occurs exactly once over all the output lists
    for p in &points {
        let mut count = 0;
        for set in &out.assignments {
            count += set.iter().filter(|id| **id == p.id).count();
        }
        count += out.unassigned.iter().filter(|id| **id == p.id).count();
        assert_eq!(count, 1, "{} must appear exactly once", p.id);
    }
}

#[test]
fn identical_input_yields_identical_output() {
    let mut outputs = Vec::new();
    for _ in 0..2 {
        let regions = vec![square_with_hole()];
        let points = vec![pt("AAAA", 2, 2), pt("BBBB", 5, 5), pt("CCCC", 100, 100)];
        let mut agg = Aggregator::new();
        agg.run_containment(&regions, &points);
        let dists = vec![vec![Some(1_000u64)], vec![Some(90_000u64)]];
        agg.run_proximity(&dists, PROXIMITY_THRESHOLD_M);
        let out = agg.output(&points);
        outputs.push((out.assignments, out.unassigned));
    }
    assert_eq!(outputs[0], outputs[1]);
}

#[test]
fn no_regions_means_everything_unassigned() {
    let regions: Vec<Polygon> = vec![];
    let points = vec![pt("AAAA", 2, 2)];
    let mut agg = Aggregator::new();
    agg.run_containment(&regions, &points);
    assert_eq!(agg.pool, vec![0usize]);
    let dists = vec![Vec::<Option<u64>>::new()];
    agg.run_proximity(&dists, PROXIMITY_THRESHOLD_M);
    let out = agg.output(&points);
    assert!(out.assignments.is_empty());
    assert_eq!(out.unassigned, vec!["AAAA".to_string()]);
}

#[test]
fn no_points_is_a_no_op_success() {
    let regions = vec![square_with_hole()];
    let points: Vec<Point> = vec![];
    let mut agg = Aggregator::new();
    agg.run_containment(&regions, &points);
    assert!(agg.pool.is_empty());
    let dists: Vec<Vec<Option<u64>>> = vec![];
    agg.run_proximity(&dists, PROXIMITY_THRESHOLD_M);
    let out = agg.output(&points);
    assert_eq!(out.assignments, vec![Vec::<String>::new()]);
    assert!(out.unassigned.is_empty());
}

#[test]
fn borders_name_carries_the_stage_number() {
    assert_eq!(
        country_borders(1),
        "../country-borders-simplified-1.geo.json"
    );
    assert_eq!(
        country_borders(2),
        "../country-borders-simplified-2.geo.json"
    );
    assert_eq!(
        country_borders(407),
        "../country-borders-simplified-407.geo.json"
    );
    assert_eq!(
        country_borders(0),
        "../country-borders-simplified-0.geo.json"
    );
}
