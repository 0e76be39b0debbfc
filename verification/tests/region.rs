use tile_overlap::error::ResolveError;
use tile_overlap::region::{
    bounds_of, envelope, intersects, parse_bounds, region_from_bounds, region_from_vertices,
    tile_intersects, widened, Extent, Point, QueryRegion, TileExtent,
};

fn extent(west: i64, south: i64, east: i64, north: i64) -> Extent {
    Extent { west, south, east, north }
}

#[test]
fn touching_corner_is_included() {
    let region = extent(0, 0, 1, 1);
    let tile = extent(1, 1, 2, 2);
    assert!(intersects(&tile, &region));
    assert!(intersects(&region, &tile));
}

#[test]
fn touching_edge_is_included() {
    let region = extent(0, 0, 10, 10);
    assert!(intersects(&extent(10, 2, 20, 3), &region));
    assert!(intersects(&extent(-5, 10, 5, 12), &region));
    assert!(intersects(&extent(-5, -5, 0, 0), &region));
}

#[test]
fn separate_extents_do_not_intersect() {
    let region = extent(0, 0, 10, 10);
    assert!(!intersects(&extent(11, 0, 12, 10), &region));
    assert!(!intersects(&extent(0, 11, 10, 12), &region));
    assert!(!intersects(&extent(-3, 0, -1, 10), &region));
    assert!(!intersects(&extent(0, -3, 10, -1), &region));
}

#[test]
fn overlap_in_one_axis_only_is_no_intersection() {
    let region = extent(0, 0, 10, 10);
    assert!(!intersects(&extent(5, 20, 6, 30), &region));
    assert!(!intersects(&extent(20, 5, 30, 6), &region));
}

#[test]
fn nested_extents_intersect() {
    let outer = extent(-100, -100, 100, 100);
    let inner = extent(-1, -1, 1, 1);
    assert!(intersects(&outer, &inner));
    assert!(intersects(&inner, &outer));
    assert!(intersects(&inner, &inner));
}

#[test]
fn intersects_is_symmetric_on_samples() {
    let samples = vec![
        extent(0, 0, 1, 1),
        extent(1, 1, 2, 2),
        extent(-5, -5, 5, 5),
        extent(3, -2, 4, 9),
        extent(i64::MIN, i64::MIN, i64::MAX, i64::MAX),
        extent(7, 7, 7, 7),
        extent(9, 9, 8, 8),
    ];
    for a in &samples {
        for b in &samples {
            assert_eq!(intersects(a, b), intersects(b, a));
        }
    }
}

#[test]
fn bounds_in_order_make_a_region() {
    let region = region_from_bounds(-10, -20, 30, 40).unwrap();
    assert!(matches!(region, QueryRegion::Extent(e) if e == extent(-10, -20, 30, 40)));
    let point = region_from_bounds(5, 5, 5, 5).unwrap();
    assert_eq!(envelope(&point), extent(5, 5, 5, 5));
}

#[test]
fn bounds_out_of_order_are_invalid_geometry() {
    assert!(matches!(region_from_bounds(1, 0, 0, 1), Err(ResolveError::InvalidGeometry)));
    assert!(matches!(region_from_bounds(0, 1, 1, 0), Err(ResolveError::InvalidGeometry)));
}

#[test]
fn outline_without_vertices_is_invalid_geometry() {
    assert!(matches!(region_from_vertices(Vec::new()), Err(ResolveError::InvalidGeometry)));
}

#[test]
fn envelope_of_an_extent_is_the_extent() {
    let region = region_from_bounds(-3, -4, 5, 6).unwrap();
    assert_eq!(envelope(&region), extent(-3, -4, 5, 6));
}

#[test]
fn envelope_of_an_outline_is_the_bounds_of_its_vertices() {
    let diamond = vec![
        Point { x: 0, y: 5 },
        Point { x: 7, y: 0 },
        Point { x: 0, y: -3 },
        Point { x: -9, y: 0 },
        Point { x: 0, y: 5 },
    ];
    let region = region_from_vertices(diamond).unwrap();
    assert_eq!(envelope(&region), extent(-9, -3, 7, 5));
}

#[test]
fn bounds_of_a_single_point() {
    let e = bounds_of(&vec![Point { x: 4, y: -4 }]);
    assert_eq!(e, extent(4, -4, 4, -4));
}

#[test]
fn bounds_of_points_given_in_descending_order() {
    let points = vec![Point { x: 3, y: 30 }, Point { x: 2, y: 20 }, Point { x: 1, y: 10 }];
    assert_eq!(bounds_of(&points), extent(1, 10, 3, 30));
}

#[test]
fn reads_bounds_written_in_degrees() {
    let region = parse_bounds("-105.3,39.6,-105.1,39.8").unwrap();
    assert_eq!(
        envelope(&region),
        extent(-1_053_000_000, 396_000_000, -1_051_000_000, 398_000_000)
    );
    let point = parse_bounds("0,0,0,0").unwrap();
    assert_eq!(envelope(&point), extent(0, 0, 0, 0));
    let signed = parse_bounds("-1.5,+2,.5,3.").unwrap();
    assert_eq!(envelope(&signed), extent(-15_000_000, 20_000_000, 5_000_000, 30_000_000));
}

#[test]
fn bounds_written_out_of_order_are_invalid_geometry() {
    assert!(matches!(parse_bounds("1,0,0,1"), Err(ResolveError::InvalidGeometry)));
    assert!(matches!(parse_bounds("0,1,1,0"), Err(ResolveError::InvalidGeometry)));
}

#[test]
fn what_is_no_list_of_four_bounds_is_invalid_geometry() {
    for raw in [
        "",
        "1,2,3",
        "1,2,3,4,5",
        "1,2,3,",
        ",1,2,3",
        "1,,2,3",
        "1,2,3,4,",
        "a,b,c,d",
        "1 ,2,3,4",
        "1, 2, 3, 4",
        "1;2;3;4",
        "POLYGON((0 0,1 0,1 1,0 1,0 0))",
    ] {
        assert!(matches!(parse_bounds(raw), Err(ResolveError::InvalidGeometry)), "{:?}", raw);
    }
}

#[test]
fn bounds_may_be_written_with_exponents() {
    let region = parse_bounds("-1.053e2,3.96E1,-1051e-1,39.8").unwrap();
    assert_eq!(
        envelope(&region),
        extent(-1_053_000_000, 396_000_000, -1_051_000_000, 398_000_000)
    );
}

#[test]
fn a_tile_that_touches_the_region_is_included() {
    let region = extent(0, 0, 1, 1);
    let tile = TileExtent { west: 1, south: 1, east: 2, north: 2 };
    assert!(tile_intersects(&tile, &region));
    assert!(tile_intersects(&widened(&region), &extent(1, 1, 2, 2)));
    assert!(!tile_intersects(&TileExtent { west: 2, south: 0, east: 3, north: 1 }, &region));
    assert!(!tile_intersects(&TileExtent { west: 0, south: 2, east: 1, north: 3 }, &region));
}

#[test]
fn a_tile_beyond_64_bits_meets_no_region() {
    let everywhere = extent(i64::MIN, i64::MIN, i64::MAX, i64::MAX);
    let far = TileExtent {
        west: i128::from(i64::MAX) + 1,
        south: 0,
        east: i128::from(i64::MAX) + 2,
        north: 1,
    };
    assert!(!tile_intersects(&far, &everywhere));
    let near = TileExtent { west: i128::from(i64::MAX), ..far };
    assert!(tile_intersects(&near, &everywhere));
}

#[test]
fn widening_keeps_the_bounds_and_the_verdict() {
    let samples =
        vec![extent(0, 0, 1, 1), extent(1, 1, 2, 2), extent(5, -2, 9, 0), extent(-3, 3, -1, 4)];
    for a in &samples {
        assert_eq!(
            widened(a),
            TileExtent {
                west: a.west.into(),
                south: a.south.into(),
                east: a.east.into(),
                north: a.north.into(),
            }
        );
        for b in &samples {
            assert_eq!(tile_intersects(&widened(a), b), intersects(a, b));
            assert_eq!(tile_intersects(&widened(a), b), tile_intersects(&widened(b), a));
        }
    }
}
