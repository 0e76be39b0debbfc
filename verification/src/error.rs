//! The ways in which a request, or the resolution of one tile, can fail.

use vstd::prelude::*;

verus! {

/// Why a request or a single tile could not be resolved.
///
/// `InvalidGeometry` ends the request. `Projection` ends it when the
/// query's own projected form cannot be had. `Fetch`, `Parse` and `Decode`
/// concern one tile only, which is then left out of the result.
#[derive(Clone, Copy, Debug, PartialEq, Eq, Structural)]
pub enum ResolveError {
    /// The query region is no well-formed geometry or extent.
    InvalidGeometry,
    /// The target coordinate reference system is unsupported, or the
    /// transformation could not be set up or carried out.
    Projection,
    /// The tile's sidecar document could not be fetched.
    Fetch,
    /// The sidecar document lacks a bound or holds one that is no number.
    Parse,
    /// The tile reference does not follow the naming convention.
    Decode,
}

impl ResolveError {
    /// Only the tile concerned is lost to this error, never the batch.
    pub open spec fn is_per_tile(self) -> bool {
        self is Fetch || self is Parse || self is Decode
    }

    /// Whether the error is confined to one tile.
    pub fn per_tile(&self) -> (r: bool)
        ensures
            r == self.is_per_tile(),
    {
        match self {
            ResolveError::Fetch | ResolveError::Parse | ResolveError::Decode => true,
            ResolveError::InvalidGeometry | ResolveError::Projection => false,
        }
    }

    /// A short description for logs and responses.
    pub fn message(&self) -> (text: &'static str)
        ensures
            text@ == match *self {
                ResolveError::InvalidGeometry => "invalid geometry"@,
                ResolveError::Projection => "projection failed"@,
                ResolveError::Fetch => "fetch failed"@,
                ResolveError::Parse => "malformed sidecar document"@,
                ResolveError::Decode => "unrecognised tile reference"@,
            },
    {
        match self {
            ResolveError::InvalidGeometry => "invalid geometry",
            ResolveError::Projection => "projection failed",
            ResolveError::Fetch => "fetch failed",
            ResolveError::Parse => "malformed sidecar document",
            ResolveError::Decode => "unrecognised tile reference",
        }
    }
}

} // verus!
