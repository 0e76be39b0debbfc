//! Query regions and extents in fixed-point coordinates: envelopes and the
//! inclusive intersection test.

use vstd::prelude::*;
use crate::decimal::degrees_of;
use crate::decimal::parse_degrees_in;
use crate::error::ResolveError;
use crate::text::chars_of;
use crate::text::fields_of;
use crate::text::ranges_of;
use crate::text::split_fields;

verus! {

/// A position, both coordinates in the same unit of one coordinate
/// reference system.
#[derive(Clone, Copy, Debug, PartialEq, Eq, Structural)]
pub struct Point {
    pub x: i64,
    pub y: i64,
}

/// An axis-aligned rectangle. All four bounds are in the same unit of the
/// same coordinate reference system; the bounds themselves belong to the
/// rectangle.
#[derive(Clone, Copy, Debug, PartialEq, Eq, Structural)]
pub struct Extent {
    pub west: i64,
    pub south: i64,
    pub east: i64,
    pub north: i64,
}

impl Extent {
    /// The bounds are ordered: the rectangle holds at least one point.
    pub open spec fn well_formed(self) -> bool {
        self.west <= self.east && self.south <= self.north
    }

    /// The point `(x, y)` lies in the rectangle, its boundary included.
    pub open spec fn contains(self, x: int, y: int) -> bool {
        self.west <= x <= self.east && self.south <= y <= self.north
    }

    /// The two rectangles overlap or touch.
    pub open spec fn meets(self, other: Extent) -> bool {
        &&& self.west <= other.east
        &&& self.east >= other.west
        &&& self.south <= other.north
        &&& self.north >= other.south
    }

    /// The rectangle is the smallest one that holds every point of
    /// `points`: it holds them all, and each of its bounds is a coordinate
    /// of one of them.
    pub open spec fn is_envelope_of(self, points: Seq<Point>) -> bool {
        &&& forall|i: int|
            0 <= i < points.len() ==> self.contains(
                (#[trigger] points[i]).x as int,
                points[i].y as int,
            )
        &&& exists|i: int| 0 <= i < points.len() && (#[trigger] points[i]).x == self.west
        &&& exists|i: int| 0 <= i < points.len() && (#[trigger] points[i]).x == self.east
        &&& exists|i: int| 0 <= i < points.len() && (#[trigger] points[i]).y == self.south
        &&& exists|i: int| 0 <= i < points.len() && (#[trigger] points[i]).y == self.north
    }
}

/// The extent of one tile. Its bounds are wider than those of a region:
/// a tile's place follows from the number in its name times the size of a
/// tile, and that product has to fit whatever the number.
#[derive(Clone, Copy, Debug, PartialEq, Eq, Structural)]
pub struct TileExtent {
    pub west: i128,
    pub south: i128,
    pub east: i128,
    pub north: i128,
}

impl TileExtent {
    /// The bounds are ordered.
    pub open spec fn well_formed(self) -> bool {
        self.west <= self.east && self.south <= self.north
    }

    /// The point `(x, y)` lies in the tile, its boundary included.
    pub open spec fn contains(self, x: int, y: int) -> bool {
        self.west <= x <= self.east && self.south <= y <= self.north
    }

    /// The tile overlaps or touches `region`.
    pub open spec fn meets(self, region: Extent) -> bool {
        &&& self.west <= region.east
        &&& self.east >= region.west
        &&& self.south <= region.north
        &&& self.north >= region.south
    }
}

impl Extent {
    /// The same rectangle as the extent of a tile.
    pub open spec fn as_tile_extent(self) -> TileExtent {
        TileExtent {
            west: self.west as i128,
            south: self.south as i128,
            east: self.east as i128,
            north: self.north as i128,
        }
    }
}

/// The region that a request asks about: an extent, or the outline of a
/// geometry given by its vertices.
#[derive(Debug)]
pub enum QueryRegion {
    Extent(Extent),
    Outline(Vec<Point>),
}

impl QueryRegion {
    /// An extent has ordered bounds; an outline has at least one vertex.
    pub open spec fn well_formed(self) -> bool {
        match self {
            QueryRegion::Extent(extent) => extent.well_formed(),
            QueryRegion::Outline(vertices) => vertices@.len() > 0,
        }
    }

    /// The extent that stands for the region in every comparison: the
    /// extent itself, or the smallest one around the outline.
    pub open spec fn has_envelope(self, envelope: Extent) -> bool {
        match self {
            QueryRegion::Extent(extent) => envelope == extent,
            QueryRegion::Outline(vertices) => envelope.is_envelope_of(vertices@),
        }
    }
}

/// Accepts four bounds as a query region if they are ordered, west before
/// east and south before north.
pub fn region_from_bounds(west: i64, south: i64, east: i64, north: i64) -> (r: Result<
    QueryRegion,
    ResolveError,
>)
    ensures
        west <= east && south <= north ==> r == Ok::<QueryRegion, ResolveError>(
            QueryRegion::Extent(Extent { west, south, east, north }),
        ),
        !(west <= east && south <= north) ==> r == Err::<QueryRegion, ResolveError>(
            ResolveError::InvalidGeometry,
        ),
        r matches Ok(region) ==> region.well_formed(),
{
    if west <= east && south <= north {
        Ok(QueryRegion::Extent(Extent { west, south, east, north }))
    } else {
        Err(ResolveError::InvalidGeometry)
    }
}

/// The extent that `raw` writes out: four decimal numerals of degrees
/// between commas, west, south, east and north in this order, with
/// ordered bounds.
pub open spec fn bounds_in(raw: Seq<char>) -> Option<Extent> {
    let fields = fields_of(raw, ',');
    if fields.len() != 4 {
        None
    } else {
        match (
            degrees_of(fields[0]),
            degrees_of(fields[1]),
            degrees_of(fields[2]),
            degrees_of(fields[3]),
        ) {
            (Some(west), Some(south), Some(east), Some(north)) => if west <= east && south
                <= north {
                Some(Extent { west, south, east, north })
            } else {
                None
            },
            _ => None,
        }
    }
}

/// Reads a query region written as `west,south,east,north` in degrees.
/// Anything else, and bounds out of order, is an invalid geometry.
pub fn parse_bounds(raw: &str) -> (r: Result<QueryRegion, ResolveError>)
    ensures
        match bounds_in(raw@) {
            Some(extent) => r == Ok::<QueryRegion, ResolveError>(QueryRegion::Extent(extent)),
            None => r == Err::<QueryRegion, ResolveError>(ResolveError::InvalidGeometry),
        },
        r matches Ok(region) ==> region.well_formed(),
{
    let chars = chars_of(raw);
    let ranges = split_fields(&chars, ',');
    if ranges.len() != 4 {
        return Err(ResolveError::InvalidGeometry);
    }
    proof {
        let fields = fields_of(raw@, ',');
        assert(fields[0] == ranges_of(chars@, ranges@)[0]);
        assert(fields[1] == ranges_of(chars@, ranges@)[1]);
        assert(fields[2] == ranges_of(chars@, ranges@)[2]);
        assert(fields[3] == ranges_of(chars@, ranges@)[3]);
    }
    let west = parse_degrees_in(&chars, ranges[0].0, ranges[0].1);
    let south = parse_degrees_in(&chars, ranges[1].0, ranges[1].1);
    let east = parse_degrees_in(&chars, ranges[2].0, ranges[2].1);
    let north = parse_degrees_in(&chars, ranges[3].0, ranges[3].1);
    match (west, south, east, north) {
        (Some(west), Some(south), Some(east), Some(north)) => region_from_bounds(
            west,
            south,
            east,
            north,
        ),
        _ => Err(ResolveError::InvalidGeometry),
    }
}

/// Accepts the vertices of a geometry as a query region if there is at
/// least one.
pub fn region_from_vertices(vertices: Vec<Point>) -> (r: Result<QueryRegion, ResolveError>)
    ensures
        vertices@.len() > 0 ==> r == Ok::<QueryRegion, ResolveError>(
            QueryRegion::Outline(vertices),
        ),
        vertices@.len() == 0 ==> r == Err::<QueryRegion, ResolveError>(
            ResolveError::InvalidGeometry,
        ),
        r matches Ok(region) ==> region.well_formed(),
{
    if vertices.len() > 0 {
        Ok(QueryRegion::Outline(vertices))
    } else {
        Err(ResolveError::InvalidGeometry)
    }
}

/// The smallest extent that holds every one of `points`.
pub fn bounds_of(points: &Vec<Point>) -> (e: Extent)
    requires
        points@.len() > 0,
    ensures
        e.is_envelope_of(points@),
        e.well_formed(),
{
    let first = points[0];
    let mut e = Extent { west: first.x, south: first.y, east: first.x, north: first.y };
    let mut i: usize = 1;
    assert(points@.take(1)[0] == first);
    while i < points.len()
        invariant
            1 <= i <= points.len(),
            e.is_envelope_of(points@.take(i as int)),
        decreases points.len() - i,
    {
        let p = points[i];
        let ghost seen = points@.take(i as int);
        let ghost more = points@.take(i + 1);
        let ghost before = e;
        proof {
            let west = choose|k: int| 0 <= k < seen.len() && (#[trigger] seen[k]).x == before.west;
            let east = choose|k: int| 0 <= k < seen.len() && (#[trigger] seen[k]).x == before.east;
            let south = choose|k: int|
                0 <= k < seen.len() && (#[trigger] seen[k]).y == before.south;
            let north = choose|k: int|
                0 <= k < seen.len() && (#[trigger] seen[k]).y == before.north;
            assert(more[west] == seen[west] && more[east] == seen[east]);
            assert(more[south] == seen[south] && more[north] == seen[north]);
            assert(more[i as int] == p);
            assert forall|k: int| 0 <= k < more.len() implies #[trigger] more[k] == if k < i {
                seen[k]
            } else {
                p
            } by {}
        }
        if p.x < e.west {
            e.west = p.x;
        }
        if p.x > e.east {
            e.east = p.x;
        }
        if p.y < e.south {
            e.south = p.y;
        }
        if p.y > e.north {
            e.north = p.y;
        }
        i += 1;
    }
    assert(points@.take(points.len() as int) =~= points@);
    e
}

/// The minimal axis-aligned extent of a region: the region itself where it
/// is an extent, the bounds of its vertices where it is an outline.
pub fn envelope(region: &QueryRegion) -> (e: Extent)
    requires
        region.well_formed(),
    ensures
        region.has_envelope(e),
        e.well_formed(),
{
    match region {
        QueryRegion::Extent(extent) => *extent,
        QueryRegion::Outline(vertices) => bounds_of(vertices),
    }
}

/// Whether two extents share at least one point. Extents that only touch
/// along an edge or at a corner do intersect.
pub fn intersects(a: &Extent, b: &Extent) -> (r: bool)
    ensures
        r == a.meets(*b),
{
    a.west <= b.east && a.east >= b.west && a.south <= b.north && a.north >= b.south
}

/// An extent as the extent of a tile.
pub fn widened(extent: &Extent) -> (tile: TileExtent)
    ensures
        tile == extent.as_tile_extent(),
{
    TileExtent {
        west: extent.west as i128,
        south: extent.south as i128,
        east: extent.east as i128,
        north: extent.north as i128,
    }
}

/// Whether a tile and a region share at least one point. A tile that only
/// touches the region along an edge or at a corner does intersect it.
pub fn tile_intersects(tile: &TileExtent, region: &Extent) -> (r: bool)
    ensures
        r == tile.meets(*region),
{
    tile.west <= region.east as i128 && tile.east >= region.west as i128 && tile.south
        <= region.north as i128 && tile.north >= region.south as i128
}

/// A tile whose extent is that of `a` meets `b` exactly when `a` meets
/// `b`, and so exactly when a tile whose extent is that of `b` meets `a`.
pub proof fn lemma_tile_meets_as_extents_meet(a: Extent, b: Extent)
    ensures
        a.as_tile_extent().meets(b) == a.meets(b),
        a.as_tile_extent().meets(b) == b.as_tile_extent().meets(a),
{
}

/// A well-formed tile and a well-formed region intersect exactly when some
/// point lies in both.
pub proof fn lemma_tile_meets_iff_common_point(tile: TileExtent, region: Extent)
    requires
        tile.well_formed(),
        region.well_formed(),
    ensures
        tile.meets(region) <==> exists|x: int, y: int| #[trigger]
            tile.contains(x, y) && region.contains(x, y),
{
    if tile.meets(region) {
        let x = if tile.west >= region.west {
            tile.west as int
        } else {
            region.west as int
        };
        let y = if tile.south >= region.south {
            tile.south as int
        } else {
            region.south as int
        };
        assert(tile.contains(x, y) && region.contains(x, y));
    }
}

/// Intersection does not depend on the order of the two extents.
pub proof fn lemma_meets_is_symmetric(a: Extent, b: Extent)
    ensures
        a.meets(b) == b.meets(a),
{
}

/// Two well-formed extents intersect exactly when some point lies in both.
pub proof fn lemma_meets_iff_common_point(a: Extent, b: Extent)
    requires
        a.well_formed(),
        b.well_formed(),
    ensures
        a.meets(b) <==> exists|x: int, y: int| #[trigger] a.contains(x, y) && b.contains(x, y),
{
    if a.meets(b) {
        let x = if a.west >= b.west {
            a.west as int
        } else {
            b.west as int
        };
        let y = if a.south >= b.south {
            a.south as int
        } else {
            b.south as int
        };
        assert(a.contains(x, y) && b.contains(x, y));
    }
}

/// Extents that have so much as one boundary point in common intersect:
/// touching counts.
pub proof fn lemma_touching_extents_meet(a: Extent, b: Extent, x: int, y: int)
    requires
        a.contains(x, y),
        b.contains(x, y),
    ensures
        a.meets(b),
{
}

/// The envelope of a region is unique: two extents that both are its
/// envelope are the same.
pub proof fn lemma_envelope_is_unique(region: QueryRegion, e1: Extent, e2: Extent)
    requires
        region.has_envelope(e1),
        region.has_envelope(e2),
    ensures
        e1 == e2,
{
}

} // verus!
