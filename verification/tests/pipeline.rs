use std::collections::BTreeSet;
use tile_overlap::error::ResolveError;
use tile_overlap::identifier::find_overlapping_files;
use tile_overlap::pipeline::{
    count_unresolved, keeps, resolve_overlaps, resolve_tile, Strategy, Tile,
};
use tile_overlap::region::{widened, Extent, TileExtent};
use tile_overlap::sidecar::BoundTags;

fn sidecar_strategy() -> Strategy {
    Strategy::Sidecar(BoundTags {
        west: "westbc".to_string(),
        east: "eastbc".to_string(),
        north: "northbc".to_string(),
        south: "southbc".to_string(),
    })
}

fn document(west: &str, south: &str, east: &str, north: &str) -> String {
    format!(
        "<bounding><westbc>{}</westbc><eastbc>{}</eastbc><northbc>{}</northbc><southbc>{}</southbc></bounding>",
        west, east, north, south
    )
}

fn fetched(reference: &str, sidecar: Result<String, ResolveError>) -> Tile {
    Tile { reference: reference.to_string(), sidecar }
}

fn named(reference: &str) -> Tile {
    Tile { reference: reference.to_string(), sidecar: Err(ResolveError::Fetch) }
}

fn degrees(west: i64, south: i64, east: i64, north: i64) -> Extent {
    Extent {
        west: west * 10_000_000,
        south: south * 10_000_000,
        east: east * 10_000_000,
        north: north * 10_000_000,
    }
}

fn metres(west: i64, south: i64, east: i64, north: i64) -> Extent {
    Extent { west: west * 1000, south: south * 1000, east: east * 1000, north: north * 1000 }
}

#[test]
fn no_tiles_give_no_references() {
    let none: Vec<Tile> = Vec::new();
    assert!(resolve_overlaps(&none, &degrees(0, 0, 1, 1), &sidecar_strategy()).is_empty());
    assert!(resolve_overlaps(&none, &metres(0, 0, 1, 1), &Strategy::Identifier).is_empty());
    assert!(resolve_overlaps(&none, &degrees(5, 5, -5, -5), &Strategy::Identifier).is_empty());
}

#[test]
fn sidecar_run_keeps_the_intersecting_tiles_that_were_fetched() {
    let tiles = vec![
        fetched("a.tif", Ok(document("0", "0", "1", "1"))),
        fetched("b.tif", Err(ResolveError::Fetch)),
        fetched("c.tif", Ok(document("5", "5", "6", "6"))),
        fetched("d.tif", Ok(document("1", "1", "2", "2"))),
    ];
    let kept = resolve_overlaps(&tiles, &degrees(0, 0, 1, 1), &sidecar_strategy());
    let set: BTreeSet<String> = kept.iter().cloned().collect();
    let expected: BTreeSet<String> = vec!["a.tif".to_string(), "d.tif".to_string()].into_iter().collect();
    assert_eq!(set, expected);
    assert_eq!(kept.len(), 2);
}

#[test]
fn identifier_run_keeps_the_intersecting_tiles_that_decode() {
    let tiles = vec![named("p/x48y440.tif"), named("p/x60y440.tif"), named("p/x47y440.tif")];
    let kept = resolve_overlaps(
        &tiles,
        &metres(479_000, 4_394_000, 486_000, 4_396_000),
        &Strategy::Identifier,
    );
    let set: BTreeSet<String> = kept.iter().cloned().collect();
    let expected: BTreeSet<String> =
        vec!["p/x48y440.tif".to_string(), "p/x47y440.tif".to_string()].into_iter().collect();
    assert_eq!(set, expected);
    assert_eq!(kept.len(), 2);
}

#[test]
fn a_failing_tile_does_not_end_the_batch() {
    let tiles = vec![
        fetched("a", Err(ResolveError::Fetch)),
        fetched("b", Ok("no bounds in here".to_string())),
        fetched("c", Ok(document("0", "0", "1", "1"))),
        fetched("d", Ok(document("zero", "0", "1", "1"))),
        fetched("e", Err(ResolveError::Decode)),
        fetched("f", Ok(document("0.5", "0.5", "0.6", "0.6"))),
    ];
    let kept = resolve_overlaps(&tiles, &degrees(0, 0, 1, 1), &sidecar_strategy());
    assert_eq!(kept, vec!["c", "f"]);
}

#[test]
fn the_survivors_keep_their_order() {
    let tiles = vec![named("x49y440"), named("x47y440"), named("x48y440"), named("x47y440")];
    let kept = resolve_overlaps(
        &tiles,
        &metres(470_000, 4_394_000, 499_000, 4_396_000),
        &Strategy::Identifier,
    );
    assert_eq!(kept, vec!["x49y440", "x47y440", "x48y440", "x47y440"]);
}

#[test]
fn running_twice_gives_the_same_set() {
    let tiles = vec![
        fetched("a", Ok(document("0", "0", "1", "1"))),
        fetched("b", Err(ResolveError::Fetch)),
        fetched("c", Ok(document("1", "1", "2", "2"))),
        fetched("d", Ok(document("3", "3", "4", "4"))),
    ];
    let region = degrees(0, 0, 1, 1);
    let once: BTreeSet<String> =
        resolve_overlaps(&tiles, &region, &sidecar_strategy()).into_iter().collect();
    let again: BTreeSet<String> =
        resolve_overlaps(&tiles, &region, &sidecar_strategy()).into_iter().collect();
    assert_eq!(once, again);
    assert_eq!(once.len(), 2);
}

#[test]
fn identifier_run_is_find_overlapping_files() {
    let references =
        vec!["x47y440".to_string(), "nothing".to_string(), "x48y440".to_string(), "x1y1".to_string()];
    let tiles: Vec<Tile> = references.iter().map(|r| named(r)).collect();
    let region = metres(479_000, 4_394_000, 486_000, 4_396_000);
    assert_eq!(
        resolve_overlaps(&tiles, &region, &Strategy::Identifier),
        find_overlapping_files(&references, &region)
    );
}

#[test]
fn each_strategy_reads_its_own_source() {
    let tile = fetched("p/x48y440.tif", Ok(document("0", "0", "1", "1")));
    assert_eq!(resolve_tile(&tile, &sidecar_strategy()), Ok(widened(&degrees(0, 0, 1, 1))));
    assert_eq!(
        resolve_tile(&tile, &Strategy::Identifier),
        Ok(TileExtent {
            west: 480_000_000,
            south: 4_390_000_000,
            east: 490_000_000,
            north: 4_400_000_000,
        })
    );
}

#[test]
fn each_failure_has_its_error() {
    assert_eq!(
        resolve_tile(&fetched("x1y1", Err(ResolveError::Fetch)), &sidecar_strategy()),
        Err(ResolveError::Fetch)
    );
    assert_eq!(
        resolve_tile(&fetched("x1y1", Err(ResolveError::Decode)), &sidecar_strategy()),
        Err(ResolveError::Decode)
    );
    assert_eq!(
        resolve_tile(&fetched("x1y1", Ok("<westbc>1</westbc>".to_string())), &sidecar_strategy()),
        Err(ResolveError::Parse)
    );
    assert_eq!(
        resolve_tile(&fetched("tile", Ok(document("0", "0", "1", "1"))), &Strategy::Identifier),
        Err(ResolveError::Decode)
    );
    assert_eq!(
        resolve_tile(&fetched("x1y1", Err(ResolveError::Projection)), &sidecar_strategy()),
        Err(ResolveError::Projection)
    );
}

#[test]
fn keeps_tells_whether_a_tile_survives() {
    let region = degrees(0, 0, 1, 1);
    assert!(keeps(&fetched("a", Ok(document("1", "1", "2", "2"))), &region, &sidecar_strategy()));
    assert!(!keeps(&fetched("a", Ok(document("2", "2", "3", "3"))), &region, &sidecar_strategy()));
    assert!(!keeps(&fetched("a", Err(ResolveError::Fetch)), &region, &sidecar_strategy()));
    assert!(!keeps(&named("a"), &region, &Strategy::Identifier));
}

#[test]
fn which_errors_concern_one_tile_only() {
    assert!(ResolveError::Fetch.per_tile());
    assert!(ResolveError::Parse.per_tile());
    assert!(ResolveError::Decode.per_tile());
    assert!(!ResolveError::InvalidGeometry.per_tile());
    assert!(!ResolveError::Projection.per_tile());
}

#[test]
fn every_error_has_its_own_message() {
    let all = vec![
        ResolveError::InvalidGeometry,
        ResolveError::Projection,
        ResolveError::Fetch,
        ResolveError::Parse,
        ResolveError::Decode,
    ];
    let messages: BTreeSet<&str> = all.iter().map(|e| e.message()).collect();
    assert_eq!(messages.len(), all.len());
    assert_eq!(ResolveError::InvalidGeometry.message(), "invalid geometry");
    assert_eq!(ResolveError::Fetch.message(), "fetch failed");
}

#[test]
fn unresolved_tiles_are_counted() {
    let tiles = vec![
        fetched("x1y1", Err(ResolveError::Fetch)),
        fetched("b", Ok("no bounds in here".to_string())),
        fetched("x2y2", Ok(document("0", "0", "1", "1"))),
        fetched("d", Ok(document("50", "50", "51", "51"))),
    ];
    assert_eq!(count_unresolved(&tiles, &sidecar_strategy()), 2);
    assert_eq!(count_unresolved(&tiles, &Strategy::Identifier), 2);
    let none: Vec<Tile> = Vec::new();
    assert_eq!(count_unresolved(&none, &Strategy::Identifier), 0);
}

#[test]
fn three_tiles_in_any_order_give_the_same_two() {
    let region = degrees(0, 0, 1, 1);
    let expected: BTreeSet<String> = vec!["a".to_string(), "b".to_string()].into_iter().collect();
    let orders: [[usize; 3]; 6] =
        [[0, 1, 2], [0, 2, 1], [1, 0, 2], [1, 2, 0], [2, 0, 1], [2, 1, 0]];
    for order in orders {
        let tiles: Vec<Tile> = order
            .iter()
            .map(|which| match which {
                0 => fetched("a", Ok(document("0.25", "0.25", "0.75", "0.75"))),
                1 => fetched("b", Ok(document("-1", "-1", "0", "0"))),
                _ => fetched("c", Err(ResolveError::Fetch)),
            })
            .collect();
        let kept: BTreeSet<String> =
            resolve_overlaps(&tiles, &region, &sidecar_strategy()).into_iter().collect();
        assert_eq!(kept, expected);
    }
}

#[test]
fn three_references_one_outside_the_region() {
    let references = vec!["x48y440".to_string(), "x49y440".to_string(), "x70y440".to_string()];
    let region = metres(485_000, 4_391_000, 495_000, 4_399_000);
    let kept: BTreeSet<String> = find_overlapping_files(&references, &region).into_iter().collect();
    let expected: BTreeSet<String> =
        vec!["x48y440".to_string(), "x49y440".to_string()].into_iter().collect();
    assert_eq!(kept, expected);
}

#[test]
fn a_reference_with_large_numbers_is_resolved() {
    let tile = named("x4294967296y9007199254740992");
    assert_eq!(
        resolve_tile(&tile, &Strategy::Identifier),
        Ok(TileExtent {
            west: 42_949_672_960_000_000,
            south: 90_071_992_547_409_910_000_000,
            east: 42_949_672_970_000_000,
            north: 90_071_992_547_409_920_000_000,
        })
    );
    assert_eq!(count_unresolved(&[tile], &Strategy::Identifier), 0);
}
