//! Tile extents decoded from the grid coordinate that a tile reference
//! carries in its name, and the selection of the tiles that meet a region
//! given in the same projected system.

use vstd::prelude::*;
use crate::region::Extent;
use crate::region::tile_intersects;
use crate::region::TileExtent;
use crate::text::all_digits;
use crate::text::chars_of;
use crate::text::decimal_value;
use crate::text::digits_only;
use crate::text::parse_digits;
use crate::text::texts;

verus! {

/// The naming convention of tile references: the letter `x`, the easting
/// numeral, the letter `y`, the northing numeral.
pub const GRID_PATTERN: &'static str = "x(\\d+)y(\\d+)";

/// Metres in one unit of the easting numeral.
pub const X_UNIT_METRES: i128 = 10_000;

/// Metres in one unit of the northing numeral once its last digit is read
/// as a decimal place.
pub const Y_UNIT_METRES: i128 = 100_000;

/// Projected coordinates are whole millimetres.
pub const UNITS_PER_METRE: i128 = 1_000;

/// The side of a tile in millimetres: one unit of the easting numeral,
/// which is a tenth of a unit of the northing numeral.
pub const TILE_SIDE: i128 = 10_000_000;

/// The grid coordinate written in a tile reference. `x` counts units of
/// `X_UNIT_METRES`. The northing numeral carries one decimal place, so
/// `y_tenths` counts tenths of `Y_UNIT_METRES`. A number too large for the
/// field is held as the largest number of the field; `lemma_held_numbers`
/// shows that no comparison with a region can tell the difference.
#[derive(Clone, Copy, Debug, PartialEq, Eq, Structural)]
pub struct TileCoordinate {
    pub x: u64,
    pub y_tenths: u64,
}

/// The texts of the first and second capture group of the first match of
/// the regular expression `pattern` in `text`; `None` when `pattern`
/// cannot be compiled, when it matches nowhere in `text`, or when one of
/// the two groups took no part in the match.
pub uninterp spec fn first_match_groups(pattern: Seq<char>, text: Seq<char>) -> Option<
    (Seq<char>, Seq<char>),
>;

/// Compiles `pattern` with `regex::Regex::new`, searches `text` with
/// `Regex::captures`, and copies out groups 1 and 2 with `Captures::get`
/// and `Match::as_str`. Not proved: the contract only gives the result its
/// name, `first_match_groups`, and so claims that equal arguments give
/// equal results.
#[verifier::external_body]
fn capture_pair(pattern: &str, text: &str) -> (r: Option<(String, String)>)
    ensures
        match r {
            Some((first, second)) => first_match_groups(pattern@, text@) == Some(
                (first@, second@),
            ),
            None => first_match_groups(pattern@, text@) is None,
        },
{
    let expression = regex::Regex::new(pattern).ok()?;
    let groups = expression.captures(text)?;
    Some((groups.get(1)?.as_str().to_string(), groups.get(2)?.as_str().to_string()))
}

/// `s` is a non-empty string of ASCII digits.
pub open spec fn is_numeral(s: Seq<char>) -> bool {
    s.len() > 0 && all_digits(s)
}

/// The number `n` as a field of a coordinate holds it.
pub open spec fn held(n: nat) -> u64 {
    if n <= u64::MAX {
        n as u64
    } else {
        u64::MAX
    }
}

/// The coordinate that two numerals denote. Every pair of numerals has
/// one.
pub open spec fn coordinate_of(x_digits: Seq<char>, y_digits: Seq<char>) -> Option<
    TileCoordinate,
> {
    if is_numeral(x_digits) && is_numeral(y_digits) {
        Some(
            TileCoordinate {
                x: held(decimal_value(x_digits)),
                y_tenths: held(decimal_value(y_digits)),
            },
        )
    } else {
        None
    }
}

/// Reads one numeral.
fn read_number(digits: &str) -> (r: Option<u64>)
    ensures
        is_numeral(digits@) ==> r == Some(held(decimal_value(digits@))),
        !is_numeral(digits@) ==> r is None,
{
    let chars = chars_of(digits);
    if chars.len() == 0 || !digits_only(&chars, 0, chars.len()) {
        assert(chars@.subrange(0, chars.len() as int) =~= chars@);
        return None;
    }
    assert(chars@.subrange(0, chars.len() as int) =~= chars@);
    match parse_digits(&chars, 0, chars.len(), 0xffff_ffff_ffff_ffff) {
        Some(value) => Some(value),
        None => Some(0xffff_ffff_ffff_ffff),
    }
}

/// Reads the two captured numerals of a tile reference as a coordinate.
pub fn decode_coordinate(x_digits: &str, y_digits: &str) -> (r: Option<TileCoordinate>)
    ensures
        r == coordinate_of(x_digits@, y_digits@),
{
    match (read_number(x_digits), read_number(y_digits)) {
        (Some(x), Some(y_tenths)) => Some(TileCoordinate { x, y_tenths }),
        _ => None,
    }
}

/// The coordinate that a tile reference carries: that of the first place
/// in it that follows the naming convention.
pub open spec fn coords_in(reference: Seq<char>) -> Option<TileCoordinate> {
    match first_match_groups(GRID_PATTERN@, reference) {
        Some((x_digits, y_digits)) => coordinate_of(x_digits, y_digits),
        None => None,
    }
}

/// Decodes the grid coordinate embedded in a tile reference. Only the
/// first match of the naming convention counts. A reference without a
/// match has no coordinate, nor has one whose match is written in digits
/// other than the ASCII ones; every other reference has one, however long
/// its numerals.
pub fn extract_coords_from_url(url: &str) -> (r: Option<TileCoordinate>)
    ensures
        r == coords_in(url@),
{
    match capture_pair(GRID_PATTERN, url) {
        Some((x_digits, y_digits)) => decode_coordinate(x_digits.as_str(), y_digits.as_str()),
        None => None,
    }
}

/// The ground that the tile at `c` covers, in millimetres of its projected
/// system: one easting unit wide, and one tenth of a northing unit high,
/// hanging below the northing that the reference names.
pub open spec fn cell_extent(c: TileCoordinate) -> TileExtent {
    TileExtent {
        west: (c.x * TILE_SIDE) as i128,
        south: ((c.y_tenths - 1) * TILE_SIDE) as i128,
        east: ((c.x + 1) * TILE_SIDE) as i128,
        north: (c.y_tenths * TILE_SIDE) as i128,
    }
}

/// Computes the extent of the tile at `c`.
pub fn tile_extent(c: &TileCoordinate) -> (e: TileExtent)
    ensures
        e == cell_extent(*c),
        e.well_formed(),
        e.west == c.x * 10_000_000,
        e.east == e.west + 10_000_000,
        e.north == c.y_tenths * 10_000_000,
        e.south == e.north - 10_000_000,
{
    let x: i128 = c.x as i128;
    let y: i128 = c.y_tenths as i128;
    TileExtent {
        west: x * TILE_SIDE,
        south: (y - 1) * TILE_SIDE,
        east: (x + 1) * TILE_SIDE,
        north: y * TILE_SIDE,
    }
}

/// The side of a tile is one unit of the easting numeral and a tenth of a
/// unit of the northing numeral, both in millimetres.
pub proof fn lemma_tile_side()
    ensures
        TILE_SIDE == X_UNIT_METRES * UNITS_PER_METRE,
        TILE_SIDE * 10 == Y_UNIT_METRES * UNITS_PER_METRE,
{
    assert(X_UNIT_METRES * UNITS_PER_METRE == 10_000 * 1_000);
    assert(Y_UNIT_METRES * UNITS_PER_METRE == 100_000 * 1_000);
}

/// The tile at `c` meets `region` exactly when the region, brought to the
/// units of the grid, overlaps or touches the cell from `x` to `x + 1` and
/// from a tenth below `y` to `y`. The comparison is written here with the
/// divisions multiplied out.
pub proof fn lemma_cell_meets_region(c: TileCoordinate, region: Extent)
    ensures
        cell_extent(c).meets(region) <==> {
            &&& region.west <= (c.x + 1) * (X_UNIT_METRES * UNITS_PER_METRE)
            &&& region.east >= c.x * (X_UNIT_METRES * UNITS_PER_METRE)
            &&& region.south * 10 <= c.y_tenths * (Y_UNIT_METRES * UNITS_PER_METRE)
            &&& region.north * 10 >= (c.y_tenths - 1) * (Y_UNIT_METRES * UNITS_PER_METRE)
        },
{
    lemma_tile_side();
    let x_unit: int = X_UNIT_METRES * UNITS_PER_METRE;
    let y_unit: int = Y_UNIT_METRES * UNITS_PER_METRE;
    assert(x_unit == 10_000_000);
    assert(y_unit == 100_000_000);
    let cell = cell_extent(c);
    assert(cell.west == c.x * 10_000_000);
    assert(cell.east == (c.x + 1) * 10_000_000);
    assert(cell.north == c.y_tenths * 10_000_000);
    assert(cell.south == (c.y_tenths - 1) * 10_000_000);
    assert(c.y_tenths * y_unit == cell.north * 10);
    assert((c.y_tenths - 1) * y_unit == cell.south * 10);
    assert((cell.west <= region.east) == (region.east >= c.x * x_unit));
    assert((cell.east >= region.west) == (region.west <= (c.x + 1) * x_unit));
    assert((cell.south <= region.north) == (region.north * 10 >= (c.y_tenths - 1) * y_unit));
    assert((cell.north >= region.south) == (region.south * 10 <= c.y_tenths * y_unit));
}

/// Whether the tile numbered `x` and `y_tenths` meets `region`, whatever
/// the size of the numbers.
pub open spec fn cell_meets(x: nat, y_tenths: nat, region: Extent) -> bool {
    &&& region.west <= (x + 1) * TILE_SIDE
    &&& region.east >= x * TILE_SIDE
    &&& region.south <= y_tenths * TILE_SIDE
    &&& region.north >= (y_tenths - 1) * TILE_SIDE
}

/// A coordinate stands for the numbers of its numerals in every comparison
/// with a region, also where it holds a number cut down to the field: such
/// a tile lies east or north of every region either way.
pub proof fn lemma_held_numbers(x: nat, y_tenths: nat, region: Extent)
    ensures
        cell_extent(TileCoordinate { x: held(x), y_tenths: held(y_tenths) }).meets(region)
            == cell_meets(x, y_tenths, region),
{
    let c = TileCoordinate { x: held(x), y_tenths: held(y_tenths) };
    let cell = cell_extent(c);
    assert(cell.west == c.x * 10_000_000);
    assert(cell.east == (c.x + 1) * 10_000_000);
    assert(cell.north == c.y_tenths * 10_000_000);
    assert(cell.south == (c.y_tenths - 1) * 10_000_000);
    if x > u64::MAX {
        assert(x * TILE_SIDE > region.east);
        assert(cell.west > region.east);
    }
    if y_tenths > u64::MAX {
        assert((y_tenths - 1) * TILE_SIDE > region.north);
        assert(cell.south > region.north);
    }
}

/// Tiles that are neighbours in the grid share an edge, so that no ground
/// lies between them.
pub proof fn lemma_neighbours_share_an_edge(c: TileCoordinate)
    requires
        c.x < u64::MAX,
        c.y_tenths < u64::MAX,
    ensures
        cell_extent(c).east == cell_extent(TileCoordinate { x: (c.x + 1) as u64, ..c }).west,
        cell_extent(c).north == cell_extent(
            TileCoordinate { y_tenths: (c.y_tenths + 1) as u64, ..c },
        ).south,
{
}

/// The tile that `reference` names can be decoded and its extent meets
/// `region`.
pub open spec fn overlaps_region(reference: Seq<char>, region: Extent) -> bool {
    match coords_in(reference) {
        Some(c) => cell_extent(c).meets(region),
        None => false,
    }
}

/// Whether a reference is selected follows from the numbers of its
/// numerals alone, however large they are: it is selected exactly when it
/// carries a pair of numerals and the tile so numbered meets the region.
pub proof fn lemma_overlap_by_the_numbers(reference: Seq<char>, region: Extent)
    ensures
        overlaps_region(reference, region) == match first_match_groups(
            GRID_PATTERN@,
            reference,
        ) {
            Some((x_digits, y_digits)) => is_numeral(x_digits) && is_numeral(y_digits)
                && cell_meets(decimal_value(x_digits), decimal_value(y_digits), region),
            None => false,
        },
{
    match first_match_groups(GRID_PATTERN@, reference) {
        Some((x_digits, y_digits)) => {
            lemma_held_numbers(decimal_value(x_digits), decimal_value(y_digits), region);
        },
        None => {},
    }
}

/// The references among `references` whose tile meets `region`, in their
/// given order.
pub open spec fn overlapping(references: Seq<Seq<char>>, region: Extent) -> Seq<Seq<char>> {
    references.filter(|reference: Seq<char>| overlaps_region(reference, region))
}

/// Whether the tile that `reference` names meets `region`. A reference
/// that cannot be decoded meets nothing.
pub fn tile_overlaps(reference: &str, region: &Extent) -> (r: bool)
    ensures
        r == overlaps_region(reference@, *region),
{
    match extract_coords_from_url(reference) {
        Some(c) => {
            let tile = tile_extent(&c);
            tile_intersects(&tile, region)
        },
        None => false,
    }
}

/// Selects the tile references whose decoded extent meets `region`, which
/// must be given in millimetres of the tiles' own projected system.
/// References that cannot be decoded are left out; the others keep their
/// order.
pub fn find_overlapping_files(tif_urls: &[String], region: &Extent) -> (kept: Vec<String>)
    ensures
        texts(kept@) == overlapping(texts(tif_urls@), *region),
        tif_urls@.len() == 0 ==> kept@.len() == 0,
{
    let mut kept: Vec<String> = Vec::new();
    let mut i: usize = 0;
    assert(texts(tif_urls@).take(0) =~= Seq::<Seq<char>>::empty());
    assert(overlapping(Seq::<Seq<char>>::empty(), *region) =~= Seq::<Seq<char>>::empty()) by {
        reveal(Seq::filter);
    }
    while i < tif_urls.len()
        invariant
            i <= tif_urls.len(),
            texts(kept@) =~= overlapping(texts(tif_urls@).take(i as int), *region),
        decreases tif_urls.len() - i,
    {
        let url = &tif_urls[i];
        let keep = tile_overlaps(url.as_str(), region);
        proof {
            let all = texts(tif_urls@);
            assert(all.take(i + 1).drop_last() =~= all.take(i as int));
            assert(all.take(i + 1).last() == url@);
            reveal(Seq::filter);
        }
        if keep {
            let ghost before = kept@;
            kept.push(url.clone());
            assert(texts(kept@) =~= texts(before).push(url@));
        }
        i += 1;
    }
    assert(texts(tif_urls@).take(tif_urls.len() as int) =~= texts(tif_urls@));
    proof {
        if tif_urls@.len() == 0 {
            assert(texts(kept@).len() == 0);
        }
    }
    kept
}

/// The references among `references` that carry no coordinate.
pub open spec fn undecodable(references: Seq<Seq<char>>) -> Seq<Seq<char>> {
    references.filter(|reference: Seq<char>| coords_in(reference) is None)
}

/// Counts the references that carry no coordinate, so that what a
/// selection leaves out for that reason can be told from what lies outside
/// the region.
pub fn count_undecodable(tif_urls: &[String]) -> (count: usize)
    ensures
        count == undecodable(texts(tif_urls@)).len(),
{
    let mut count: usize = 0;
    let mut i: usize = 0;
    proof {
        reveal(Seq::filter);
        assert(texts(tif_urls@).take(0) =~= Seq::<Seq<char>>::empty());
    }
    while i < tif_urls.len()
        invariant
            i <= tif_urls.len(),
            count <= i,
            count == undecodable(texts(tif_urls@).take(i as int)).len(),
        decreases tif_urls.len() - i,
    {
        let missing = extract_coords_from_url(tif_urls[i].as_str()).is_none();
        proof {
            let all = texts(tif_urls@);
            reveal(Seq::filter);
            assert(all.take(i + 1).drop_last() =~= all.take(i as int));
            assert(all.take(i + 1).last() == tif_urls@[i as int]@);
        }
        if missing {
            count += 1;
        }
        i += 1;
    }
    assert(texts(tif_urls@).take(tif_urls.len() as int) =~= texts(tif_urls@));
    count
}

/// Selecting again from what was selected changes nothing.
pub proof fn lemma_overlapping_is_idempotent(references: Seq<Seq<char>>, region: Extent)
    ensures
        overlapping(overlapping(references, region), region) == overlapping(references, region),
    decreases references.len(),
{
    reveal(Seq::filter);
    if references.len() > 0 {
        let init = references.drop_last();
        lemma_overlapping_is_idempotent(init, region);
        if overlaps_region(references.last(), region) {
            assert(overlapping(init, region).push(references.last()).drop_last() =~= overlapping(
                init,
                region,
            ));
        }
    }
}

/// Every reference that is selected was among those given, and its tile
/// meets the region.
pub proof fn lemma_overlapping_selects(references: Seq<Seq<char>>, region: Extent, i: int)
    requires
        0 <= i < overlapping(references, region).len(),
    ensures
        references.contains(overlapping(references, region)[i]),
        overlaps_region(overlapping(references, region)[i], region),
    decreases references.len(),
{
    reveal(Seq::filter);
    if references.len() > 0 {
        let init = references.drop_last();
        if i < overlapping(init, region).len() {
            lemma_overlapping_selects(init, region, i);
            let found = choose|k: int|
                0 <= k < init.len() && init[k] == overlapping(init, region)[i];
            assert(references[found] == overlapping(references, region)[i]);
        } else {
            assert(references[references.len() - 1] == overlapping(references, region)[i]);
        }
    }
}

} // verus!
