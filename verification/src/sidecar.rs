//! Tile extents read from the metadata document that accompanies a tile:
//! where the document lies, and the four bounds written in its markup.

use vstd::prelude::*;
use vstd::string::StrSliceExecFns;
use vstd::string::StringExecFns;
use crate::decimal::degrees_of;
use crate::decimal::parse_degrees_in;
use crate::error::ResolveError;
use crate::region::Extent;
use crate::text::chars_of;
use crate::text::find;
use crate::text::first_occurrence;
use crate::text::lemma_first_occurrence;
use crate::text::matches_at;
use crate::text::occurs_at;

verus! {

/// How the location of a tile's sidecar document follows from the tile's
/// own: one path segment and the file extension are exchanged.
#[derive(Debug)]
pub struct SidecarConvention {
    /// The path segment that marks a tile.
    pub tile_segment: String,
    /// The path segment that takes its place.
    pub sidecar_segment: String,
    /// What a tile reference ends with.
    pub tile_extension: String,
    /// What the sidecar's location ends with instead.
    pub sidecar_extension: String,
}

/// The names of the four elements of a sidecar document that hold the
/// tile's bounds.
#[derive(Debug)]
pub struct BoundTags {
    pub west: String,
    pub east: String,
    pub north: String,
    pub south: String,
}

/// `text` ends with `suffix`.
pub open spec fn ends_with(text: Seq<char>, suffix: Seq<char>) -> bool {
    occurs_at(text, suffix, text.len() - suffix.len())
}

/// The location of the sidecar of the tile at `reference`: the reference
/// without its tile extension, the first tile segment in it exchanged, and
/// the sidecar extension put on. There is none if the reference lacks the
/// extension or the segment.
pub open spec fn sidecar_of(reference: Seq<char>, convention: SidecarConvention) -> Option<
    Seq<char>,
> {
    if !ends_with(reference, convention.tile_extension@) {
        None
    } else {
        let stem = reference.take(reference.len() - convention.tile_extension@.len());
        match first_occurrence(stem, convention.tile_segment@, 0) {
            None => None,
            Some(at) => Some(
                stem.take(at) + convention.sidecar_segment@ + stem.skip(
                    at + convention.tile_segment@.len(),
                ) + convention.sidecar_extension@,
            ),
        }
    }
}

/// Rewrites a tile reference into the location of its sidecar document. A
/// reference that does not follow the convention has no sidecar and cannot
/// be resolved.
pub fn sidecar_location(reference: &str, convention: &SidecarConvention) -> (r: Result<
    String,
    ResolveError,
>)
    ensures
        match r {
            Ok(location) => sidecar_of(reference@, *convention) == Some(location@),
            Err(error) => error == ResolveError::Decode && sidecar_of(reference@, *convention)
                is None,
        },
{
    let mut stem = chars_of(reference);
    let extension = chars_of(convention.tile_extension.as_str());
    let total = stem.len();
    if extension.len() > total || !matches_at(&stem, &extension, total - extension.len()) {
        return Err(ResolveError::Decode);
    }
    let stem_len = total - extension.len();
    stem.truncate(stem_len);
    assert(stem@ =~= reference@.take(stem_len as int));
    let segment = chars_of(convention.tile_segment.as_str());
    match find(&stem, &segment, 0) {
        None => Err(ResolveError::Decode),
        Some(at) => {
            proof {
                lemma_first_occurrence(stem@, segment@, 0);
                assert(occurs_at(stem@, segment@, at as int));
            }
            let resume = at + segment.len();
            let mut location = reference.substring_char(0, at).to_owned();
            location.append(convention.sidecar_segment.as_str());
            location.append(reference.substring_char(resume, stem_len));
            location.append(convention.sidecar_extension.as_str());
            proof {
                assert(reference@.subrange(0, at as int) =~= stem@.take(at as int));
                assert(reference@.subrange(resume as int, stem_len as int) =~= stem@.skip(
                    resume as int,
                ));
            }
            Ok(location)
        },
    }
}

/// The text that opens the element `tag`.
pub open spec fn opening(tag: Seq<char>) -> Seq<char> {
    seq!['<'] + tag + seq!['>']
}

/// The text that closes the element `tag`.
pub open spec fn closing(tag: Seq<char>) -> Seq<char> {
    seq!['<', '/'] + tag + seq!['>']
}

/// What stands between the first opening of the element `tag` in
/// `document` and the first closing of it after that. The match is by the
/// exact characters of the name.
pub open spec fn element_text(document: Seq<char>, tag: Seq<char>) -> Option<Seq<char>> {
    match first_occurrence(document, opening(tag), 0) {
        None => None,
        Some(at) => {
            let start = at + opening(tag).len();
            match first_occurrence(document, closing(tag), start) {
                None => None,
                Some(end) => Some(document.subrange(start, end)),
            }
        },
    }
}

/// The characters `<`, an optional `/`, those of `tag`, and `>`.
fn marker(tag: &str, closes: bool) -> (m: Vec<char>)
    ensures
        m@ == if closes {
            closing(tag@)
        } else {
            opening(tag@)
        },
{
    let name = chars_of(tag);
    let mut m: Vec<char> = Vec::new();
    m.push('<');
    if closes {
        m.push('/');
    }
    let ghost head = m@;
    let mut i: usize = 0;
    while i < name.len()
        invariant
            i <= name.len(),
            m@ == head + name@.take(i as int),
        decreases name.len() - i,
    {
        m.push(name[i]);
        assert(name@.take(i + 1) =~= name@.take(i as int).push(name@[i as int]));
        i += 1;
    }
    assert(name@.take(name.len() as int) =~= name@);
    m.push('>');
    assert(m@ =~= head + name@ + seq!['>']);
    m
}

/// Where the text of the element `tag` lies in `document`.
pub fn element_range(document: &Vec<char>, tag: &str) -> (r: Option<(usize, usize)>)
    ensures
        match r {
            Some((start, end)) => start <= end <= document.len() && element_text(
                document@,
                tag@,
            ) == Some(document@.subrange(start as int, end as int)),
            None => element_text(document@, tag@) is None,
        },
{
    let open = marker(tag, false);
    let close = marker(tag, true);
    match find(document, &open, 0) {
        None => None,
        Some(at) => {
            proof {
                lemma_first_occurrence(document@, open@, 0);
                assert(occurs_at(document@, open@, at as int));
            }
            let total = document.len();
            let start = at + open.len();
            match find(document, &close, start) {
                None => None,
                Some(end) => {
                    proof {
                        lemma_first_occurrence(document@, close@, start as int);
                        assert(occurs_at(document@, close@, end as int));
                    }
                    Some((start, end))
                },
            }
        },
    }
}

/// The bound that the element `tag` of `document` holds.
pub open spec fn bound_of(document: Seq<char>, tag: Seq<char>) -> Option<i64> {
    match element_text(document, tag) {
        Some(text) => degrees_of(text),
        None => None,
    }
}

/// The extent written in a sidecar document, if all four bounds are there
/// and are numbers.
pub open spec fn sidecar_extent(document: Seq<char>, tags: BoundTags) -> Option<Extent> {
    match (
        bound_of(document, tags.west@),
        bound_of(document, tags.east@),
        bound_of(document, tags.north@),
        bound_of(document, tags.south@),
    ) {
        (Some(west), Some(east), Some(north), Some(south)) => Some(
            Extent { west, south, east, north },
        ),
        _ => None,
    }
}

/// Reads the bound that the element `tag` of `document` holds.
pub fn read_bound(document: &Vec<char>, tag: &str) -> (r: Option<i64>)
    ensures
        r == bound_of(document@, tag@),
{
    match element_range(document, tag) {
        Some((start, end)) => parse_degrees_in(document, start, end),
        None => None,
    }
}

/// Reads the extent of a tile from its sidecar document, in ten-millionths
/// of a degree. Fails if one of the four bounds is missing or is no
/// number; whatever else the document holds is passed over.
pub fn parse_sidecar_extent(document: &str, tags: &BoundTags) -> (r: Result<Extent, ResolveError>)
    ensures
        match r {
            Ok(extent) => sidecar_extent(document@, *tags) == Some(extent),
            Err(error) => error == ResolveError::Parse && sidecar_extent(document@, *tags) is None,
        },
{
    let chars = chars_of(document);
    let west = read_bound(&chars, tags.west.as_str());
    let east = read_bound(&chars, tags.east.as_str());
    let north = read_bound(&chars, tags.north.as_str());
    let south = read_bound(&chars, tags.south.as_str());
    match (west, east, north, south) {
        (Some(west), Some(east), Some(north), Some(south)) => Ok(
            Extent { west, south, east, north },
        ),
        _ => Err(ResolveError::Parse),
    }
}

} // verus!
