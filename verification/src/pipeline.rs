//! The selection of the tiles of a product that overlap the query region,
//! under either way of resolving a tile's extent.

use vstd::prelude::*;
use crate::error::ResolveError;
use crate::identifier::cell_extent;
use crate::identifier::coords_in;
use crate::identifier::extract_coords_from_url;
use crate::identifier::overlapping;
use crate::identifier::overlaps_region;
use crate::identifier::tile_extent;
use crate::region::Extent;
use crate::region::tile_intersects;
use crate::region::TileExtent;
use crate::region::widened;
use crate::sidecar::BoundTags;
use crate::sidecar::parse_sidecar_extent;
use crate::sidecar::sidecar_extent;
use crate::text::texts;

verus! {

/// How the extent of a tile is resolved. One run of the pipeline uses one
/// strategy for all its tiles.
#[derive(Debug)]
pub enum Strategy {
    /// The extent is read from the tile's sidecar document, under the
    /// given element names. Extents are geographic, in ten-millionths of a
    /// degree.
    Sidecar(BoundTags),
    /// The extent is decoded from the grid coordinate in the tile's
    /// reference. Extents are in millimetres of the tile's projected
    /// system.
    Identifier,
}

/// One tile of a product: its reference, and what fetching its sidecar
/// document gave. The sidecar strategy alone reads `sidecar`.
#[derive(Debug)]
pub struct Tile {
    pub reference: String,
    pub sidecar: Result<String, ResolveError>,
}

/// The extent of `tile` under `strategy`, or why it has none.
pub open spec fn resolved(tile: Tile, strategy: Strategy) -> Result<TileExtent, ResolveError> {
    match strategy {
        Strategy::Sidecar(tags) => match tile.sidecar {
            Ok(document) => match sidecar_extent(document@, tags) {
                Some(extent) => Ok(extent.as_tile_extent()),
                None => Err(ResolveError::Parse),
            },
            Err(error) => Err(error),
        },
        Strategy::Identifier => match coords_in(tile.reference@) {
            Some(c) => Ok(cell_extent(c)),
            None => Err(ResolveError::Decode),
        },
    }
}

/// `tile` belongs to the result: it was resolved, and its extent meets
/// `region`.
pub open spec fn is_kept(tile: Tile, region: Extent, strategy: Strategy) -> bool {
    match resolved(tile, strategy) {
        Ok(extent) => extent.meets(region),
        Err(_) => false,
    }
}

/// The tiles of `tiles` that belong to the result, in the order given.
pub open spec fn kept_tiles(tiles: Seq<Tile>, region: Extent, strategy: Strategy) -> Seq<Tile> {
    tiles.filter(|tile: Tile| is_kept(tile, region, strategy))
}

/// The references of the tiles that belong to the result.
pub open spec fn kept_references(tiles: Seq<Tile>, region: Extent, strategy: Strategy) -> Seq<
    Seq<char>,
> {
    kept_tiles(tiles, region, strategy).map_values(|tile: Tile| tile.reference@)
}

/// `out` holds the references of the result, in whatever order: each as
/// often as the result holds it.
pub open spec fn is_selection(
    out: Seq<Seq<char>>,
    tiles: Seq<Tile>,
    region: Extent,
    strategy: Strategy,
) -> bool {
    out.to_multiset() == kept_references(tiles, region, strategy).to_multiset()
}

/// Resolves the extent of one tile under `strategy`. A sidecar that could
/// not be fetched hands its error on; a sidecar without four numeric
/// bounds is a parse error; a reference without a grid coordinate is a
/// decode error.
pub fn resolve_tile(tile: &Tile, strategy: &Strategy) -> (r: Result<TileExtent, ResolveError>)
    ensures
        r == resolved(*tile, *strategy),
{
    match strategy {
        Strategy::Sidecar(tags) => match &tile.sidecar {
            Ok(document) => match parse_sidecar_extent(document.as_str(), tags) {
                Ok(extent) => Ok(widened(&extent)),
                Err(error) => Err(error),
            },
            Err(error) => Err(*error),
        },
        Strategy::Identifier => match extract_coords_from_url(tile.reference.as_str()) {
            Some(c) => Ok(tile_extent(&c)),
            None => Err(ResolveError::Decode),
        },
    }
}

/// Whether one tile belongs to the result. A tile that cannot be resolved
/// does not; its failure concerns no other tile.
pub fn keeps(tile: &Tile, region: &Extent, strategy: &Strategy) -> (r: bool)
    ensures
        r == is_kept(*tile, *region, *strategy),
{
    match resolve_tile(tile, strategy) {
        Ok(extent) => tile_intersects(&extent, region),
        Err(_) => false,
    }
}

/// Selects the references of the tiles whose extent, resolved under
/// `strategy`, meets `region`. The region must be given in the system of
/// the strategy's extents. Tiles that cannot be resolved are left out, and
/// the others keep their order.
pub fn resolve_overlaps(tiles: &[Tile], region: &Extent, strategy: &Strategy) -> (kept: Vec<String>)
    ensures
        texts(kept@) == kept_references(tiles@, *region, *strategy),
        is_selection(texts(kept@), tiles@, *region, *strategy),
        tiles@.len() == 0 ==> kept@.len() == 0,
{
    let mut kept: Vec<String> = Vec::new();
    let mut i: usize = 0;
    proof {
        lemma_nothing_from_nothing(*region, *strategy);
        assert(tiles@.take(0) =~= Seq::<Tile>::empty());
        assert(texts(kept@) =~= Seq::<Seq<char>>::empty());
    }
    while i < tiles.len()
        invariant
            i <= tiles.len(),
            texts(kept@) == kept_references(tiles@.take(i as int), *region, *strategy),
        decreases tiles.len() - i,
    {
        let tile = &tiles[i];
        let keep = keeps(tile, region, strategy);
        proof {
            lemma_one_more_tile(tiles@.take(i as int), *tile, *region, *strategy);
            assert(tiles@.take(i + 1) =~= tiles@.take(i as int).push(*tile));
        }
        if keep {
            let ghost before = kept@;
            kept.push(tile.reference.clone());
            assert(texts(kept@) =~= texts(before).push(tile.reference@));
        }
        i += 1;
    }
    proof {
        assert(tiles@.take(tiles.len() as int) =~= tiles@);
        if tiles@.len() == 0 {
            assert(tiles@ =~= Seq::<Tile>::empty());
            assert(texts(kept@).len() == 0);
        }
    }
    kept
}

/// The tiles of `tiles` that cannot be resolved under `strategy`.
pub open spec fn unresolved_tiles(tiles: Seq<Tile>, strategy: Strategy) -> Seq<Tile> {
    tiles.filter(|tile: Tile| resolved(tile, strategy) is Err)
}

/// Counts the tiles that cannot be resolved, so that what a run leaves
/// out for that reason can be told from what lies outside the region.
pub fn count_unresolved(tiles: &[Tile], strategy: &Strategy) -> (count: usize)
    ensures
        count == unresolved_tiles(tiles@, *strategy).len(),
{
    let mut count: usize = 0;
    let mut i: usize = 0;
    proof {
        reveal(Seq::filter);
        assert(tiles@.take(0) =~= Seq::<Tile>::empty());
    }
    while i < tiles.len()
        invariant
            i <= tiles.len(),
            count <= i,
            count == unresolved_tiles(tiles@.take(i as int), *strategy).len(),
        decreases tiles.len() - i,
    {
        let failed = resolve_tile(&tiles[i], strategy).is_err();
        proof {
            reveal(Seq::filter);
            assert(tiles@.take(i + 1).drop_last() =~= tiles@.take(i as int));
        }
        if failed {
            count += 1;
        }
        i += 1;
    }
    assert(tiles@.take(tiles.len() as int) =~= tiles@);
    count
}

/// Without tiles there is nothing in the result, whatever the region and
/// the strategy.
pub proof fn lemma_nothing_from_nothing(region: Extent, strategy: Strategy)
    ensures
        kept_references(Seq::<Tile>::empty(), region, strategy) == Seq::<Seq<char>>::empty(),
{
    reveal(Seq::filter);
    assert(kept_references(Seq::<Tile>::empty(), region, strategy) =~= Seq::<
        Seq<char>,
    >::empty());
}

/// One more tile at the end adds its reference to the end of the result
/// if it belongs there, and changes nothing otherwise.
pub proof fn lemma_one_more_tile(tiles: Seq<Tile>, tile: Tile, region: Extent, strategy: Strategy)
    ensures
        kept_references(tiles.push(tile), region, strategy) == if is_kept(tile, region, strategy) {
            kept_references(tiles, region, strategy).push(tile.reference@)
        } else {
            kept_references(tiles, region, strategy)
        },
{
    reveal(Seq::filter);
    assert(tiles.push(tile).drop_last() =~= tiles);
    let kept = kept_tiles(tiles, region, strategy);
    if is_kept(tile, region, strategy) {
        assert(kept.push(tile).map_values(|t: Tile| t.reference@) =~= kept.map_values(
            |t: Tile| t.reference@,
        ).push(tile.reference@));
    }
}

/// The result of a batch is the result of its first part followed by the
/// result of the rest: each tile is judged by itself.
pub proof fn lemma_tiles_are_independent(
    first: Seq<Tile>,
    rest: Seq<Tile>,
    region: Extent,
    strategy: Strategy,
)
    ensures
        kept_references(first + rest, region, strategy) == kept_references(
            first,
            region,
            strategy,
        ) + kept_references(rest, region, strategy),
{
    let keep = |tile: Tile| is_kept(tile, region, strategy);
    Seq::filter_distributes_over_add(first, rest, keep);
    assert(kept_references(first + rest, region, strategy) =~= kept_references(
        first,
        region,
        strategy,
    ) + kept_references(rest, region, strategy));
}

/// A tile that cannot be resolved is left out, and the batch goes on as if
/// it had not been there.
pub proof fn lemma_failure_drops_one_tile(
    first: Seq<Tile>,
    failed: Tile,
    rest: Seq<Tile>,
    region: Extent,
    strategy: Strategy,
)
    requires
        resolved(failed, strategy) is Err,
    ensures
        kept_references(first.push(failed) + rest, region, strategy) == kept_references(
            first + rest,
            region,
            strategy,
        ),
{
    lemma_tiles_are_independent(first.push(failed), rest, region, strategy);
    lemma_tiles_are_independent(first, rest, region, strategy);
    lemma_one_more_tile(first, failed, region, strategy);
}

/// A reference is in the result exactly when it is the reference of a
/// tile that was resolved and whose extent meets the region.
pub proof fn lemma_kept_reference(
    tiles: Seq<Tile>,
    region: Extent,
    strategy: Strategy,
    reference: Seq<char>,
)
    ensures
        kept_references(tiles, region, strategy).contains(reference) <==> exists|i: int|
            0 <= i < tiles.len() && is_kept(#[trigger] tiles[i], region, strategy)
                && tiles[i].reference@ == reference,
{
    let keep = |tile: Tile| is_kept(tile, region, strategy);
    let kept = kept_tiles(tiles, region, strategy);
    let references = kept_references(tiles, region, strategy);
    if references.contains(reference) {
        let j = choose|j: int| 0 <= j < references.len() && references[j] == reference;
        tiles.lemma_filter_pred(keep, j);
        assert(kept.contains(kept[j]));
        tiles.lemma_filter_contains_rev(keep, kept[j]);
        let i = choose|i: int| 0 <= i < tiles.len() && tiles[i] == kept[j];
        assert(is_kept(tiles[i], region, strategy) && tiles[i].reference@ == reference);
    }
    if exists|i: int|
        0 <= i < tiles.len() && is_kept(#[trigger] tiles[i], region, strategy)
            && tiles[i].reference@ == reference {
        let i = choose|i: int|
            0 <= i < tiles.len() && is_kept(#[trigger] tiles[i], region, strategy)
                && tiles[i].reference@ == reference;
        tiles.lemma_filter_contains(keep, i);
        let j = choose|j: int| 0 <= j < kept.len() && kept[j] == tiles[i];
        assert(references[j] == reference);
    }
}

/// The set of references in the result does not depend on the order of
/// the tiles, nor on how often each is given.
pub proof fn lemma_order_is_immaterial(
    tiles: Seq<Tile>,
    shuffled: Seq<Tile>,
    region: Extent,
    strategy: Strategy,
)
    requires
        tiles.to_set() == shuffled.to_set(),
    ensures
        kept_references(tiles, region, strategy).to_set() == kept_references(
            shuffled,
            region,
            strategy,
        ).to_set(),
{
    let one = kept_references(tiles, region, strategy);
    let other = kept_references(shuffled, region, strategy);
    assert forall|reference: Seq<char>| one.contains(reference) == other.contains(
        reference,
    ) by {
        lemma_kept_reference(tiles, region, strategy, reference);
        lemma_kept_reference(shuffled, region, strategy, reference);
        if one.contains(reference) {
            let i = choose|i: int|
                0 <= i < tiles.len() && is_kept(#[trigger] tiles[i], region, strategy)
                    && tiles[i].reference@ == reference;
            assert(tiles.to_set().contains(tiles[i]));
            assert(shuffled.contains(tiles[i]));
            let k = choose|k: int| 0 <= k < shuffled.len() && shuffled[k] == tiles[i];
            assert(is_kept(shuffled[k], region, strategy));
        }
        if other.contains(reference) {
            let i = choose|i: int|
                0 <= i < shuffled.len() && is_kept(#[trigger] shuffled[i], region, strategy)
                    && shuffled[i].reference@ == reference;
            assert(shuffled.to_set().contains(shuffled[i]));
            assert(tiles.contains(shuffled[i]));
            let k = choose|k: int| 0 <= k < tiles.len() && tiles[k] == shuffled[i];
            assert(is_kept(tiles[k], region, strategy));
        }
    }
    assert(one.to_set() =~= other.to_set());
}

/// Two runs over the same tiles, region and strategy hold the same set of
/// references, in whatever order each delivers them.
pub proof fn lemma_runs_agree(
    once: Seq<Seq<char>>,
    again: Seq<Seq<char>>,
    tiles: Seq<Tile>,
    region: Extent,
    strategy: Strategy,
)
    requires
        is_selection(once, tiles, region, strategy),
        is_selection(again, tiles, region, strategy),
    ensures
        once.to_set() == again.to_set(),
{
    broadcast use vstd::seq_lib::to_multiset_contains;

    assert forall|reference: Seq<char>|
        once.to_set().contains(reference) == again.to_set().contains(reference) by {
        assert(once.contains(reference) <==> once.to_multiset().count(reference) > 0);
        assert(again.contains(reference) <==> again.to_multiset().count(reference) > 0);
    }
    assert(once.to_set() =~= again.to_set());
}

/// Under the identifier strategy the result is that of
/// `find_overlapping_files` on the tiles' references.
pub proof fn lemma_identifier_strategy(tiles: Seq<Tile>, region: Extent)
    ensures
        kept_references(tiles, region, Strategy::Identifier) == overlapping(
            tiles.map_values(|tile: Tile| tile.reference@),
            region,
        ),
    decreases tiles.len(),
{
    reveal(Seq::filter);
    let references = tiles.map_values(|tile: Tile| tile.reference@);
    if tiles.len() == 0 {
        assert(kept_references(tiles, region, Strategy::Identifier) =~= overlapping(
            references,
            region,
        ));
    } else {
        let init = tiles.drop_last();
        let last = tiles.last();
        lemma_identifier_strategy(init, region);
        assert(tiles =~= init.push(last));
        lemma_one_more_tile(init, last, region, Strategy::Identifier);
        assert(references.drop_last() =~= init.map_values(|tile: Tile| tile.reference@));
        assert(references.last() == last.reference@);
        assert(is_kept(last, region, Strategy::Identifier) == overlaps_region(
            last.reference@,
            region,
        ));
    }
}

} // verus!
