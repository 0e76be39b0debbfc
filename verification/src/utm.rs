//! The zone of the Universal Transverse Mercator grid that a geographic
//! point falls in, and the code of that zone's coordinate reference system.

use vstd::prelude::*;
use crate::region::Extent;

verus! {

/// The zones of the grid are numbered from 1 to this.
pub const ZONES: u8 = 60;

/// The width of one zone: six degrees of longitude.
pub const ZONE_WIDTH: i64 = 60_000_000;

/// Half a turn: the zones are counted from the meridian this far west of
/// Greenwich.
pub const HALF_TURN: i64 = 1_800_000_000;

/// The code of zone 0 on the northern hemisphere, were there one.
pub const NORTH_CODE_BASE: u32 = 32_600;

/// The code of zone 0 on the southern hemisphere, were there one.
pub const SOUTH_CODE_BASE: u32 = 32_700;

/// The zone of longitude `lon`, given in ten-millionths of a degree: the
/// zones are six degrees wide and counted eastwards from the meridian at
/// -180 degrees, and longitudes outside the grid belong to the nearest
/// zone.
pub open spec fn utm_zone(lon: int) -> int {
    let counted = (lon + HALF_TURN) / (ZONE_WIDTH as int) + 1;
    if counted < 1 {
        1
    } else if counted > ZONES {
        ZONES as int
    } else {
        counted
    }
}

/// The code of the projected system of `zone` on the hemisphere of
/// latitude `lat`; the equator counts as north.
pub open spec fn utm_code(zone: int, lat: int) -> int {
    if lat >= 0 {
        NORTH_CODE_BASE + zone
    } else {
        SOUTH_CODE_BASE + zone
    }
}

/// The zone that a geographic point falls in and the code of the zone's
/// projected system.
pub fn utm_zone_and_code(lon: i64, lat: i64) -> (r: (u8, u32))
    ensures
        r.0 == utm_zone(lon as int),
        r.1 == utm_code(r.0 as int, lat as int),
        1 <= r.0 <= ZONES,
{
    let zone: u8 = if lon < -HALF_TURN {
        1
    } else if lon >= HALF_TURN {
        ZONES
    } else {
        ((lon + HALF_TURN) / ZONE_WIDTH + 1) as u8
    };
    let code: u32 = if lat >= 0 {
        NORTH_CODE_BASE + zone as u32
    } else {
        SOUTH_CODE_BASE + zone as u32
    };
    (zone, code)
}

/// What has to be asked of the projection for one corner of a region: the
/// corner, in ten-millionths of a degree, and the zone and code of the
/// system to project it into.
#[derive(Clone, Copy, Debug, PartialEq, Eq, Structural)]
pub struct ProjectionRequest {
    pub lon: i64,
    pub lat: i64,
    pub zone: u8,
    pub code: u32,
}

/// A geographic point brought into the projected system of `zone`, in
/// millimetres.
#[derive(Clone, Copy, Debug, PartialEq, Eq, Structural)]
pub struct ProjectedPoint {
    pub x: i64,
    pub y: i64,
    pub zone: u8,
}

/// The request for the point `(lon, lat)`, into the zone it falls in.
pub open spec fn request_for(lon: i64, lat: i64) -> ProjectionRequest {
    ProjectionRequest {
        lon,
        lat,
        zone: utm_zone(lon as int) as u8,
        code: utm_code(utm_zone(lon as int), lat as int) as u32,
    }
}

/// The two projections that bring a geographic envelope into the system
/// of the tiles: first its south-west corner, then its north-east corner,
/// each into the zone of that corner. An envelope that spans two zones is
/// thus projected into two systems, and what the comparison with tiles
/// then yields is not defined.
pub fn corner_requests(envelope: &Extent) -> (r: (ProjectionRequest, ProjectionRequest))
    ensures
        r.0 == request_for(envelope.west, envelope.south),
        r.1 == request_for(envelope.east, envelope.north),
{
    let (low_zone, low_code) = utm_zone_and_code(envelope.west, envelope.south);
    let (high_zone, high_code) = utm_zone_and_code(envelope.east, envelope.north);
    (
        ProjectionRequest {
            lon: envelope.west,
            lat: envelope.south,
            zone: low_zone,
            code: low_code,
        },
        ProjectionRequest {
            lon: envelope.east,
            lat: envelope.north,
            zone: high_zone,
            code: high_code,
        },
    )
}

/// The region to compare tiles with, from the projections of the
/// south-west and the north-east corner of the query's envelope.
pub fn projected_region(low: &ProjectedPoint, high: &ProjectedPoint) -> (e: Extent)
    ensures
        e == (Extent { west: low.x, south: low.y, east: high.x, north: high.y }),
{
    Extent { west: low.x, south: low.y, east: high.x, north: high.y }
}

/// Both corners of an envelope that lies within one zone are projected
/// into the same system.
pub proof fn lemma_one_zone_one_system(envelope: Extent)
    requires
        envelope.well_formed(),
        utm_zone(envelope.west as int) == utm_zone(envelope.east as int),
        (envelope.south >= 0) == (envelope.north >= 0),
    ensures
        request_for(envelope.west, envelope.south).code == request_for(
            envelope.east,
            envelope.north,
        ).code,
{
}

/// Zones are counted eastwards: a point further east is in no earlier
/// zone.
pub proof fn lemma_zone_is_monotonic(lon1: int, lon2: int)
    requires
        lon1 <= lon2,
    ensures
        utm_zone(lon1) <= utm_zone(lon2),
{
    vstd::arithmetic::div_mod::lemma_div_is_ordered(
        lon1 + HALF_TURN,
        lon2 + HALF_TURN,
        ZONE_WIDTH as int,
    );
}

} // verus!
