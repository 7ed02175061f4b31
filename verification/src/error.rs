//! Failure kinds of the enrichment pass.

use vstd::prelude::*;

verus! {

/// Mathematical mirror of [`Error`]: the same variants over sequences of
/// characters, used by the contracts.
pub ghost enum ErrorModel {
    /// The requested entity kind is entirely absent from the parsed extract.
    MissingOsmCollection { object_type: Seq<char> },
    /// An annotation code references an OSM id that the index does not hold.
    UnresolvedReference { osm_id: Seq<char> },
    /// The entity already carries a geometry reference.
    DuplicateGeometryAssignment { entity_id: Seq<char> },
    /// Two objects of one collection share an id.
    DuplicateIdentifier { id: Seq<char> },
    /// The extract path is not representable as text.
    InvalidPath,
}

/// A hard failure of the enrichment. Every variant aborts the whole pass;
/// an empty OSM shape is not an error but a recovered warning
/// ([`crate::read_shapes::EmptyShapeWarning`]).
#[derive(Debug, PartialEq, Eq)]
pub enum Error {
    /// The requested entity kind is entirely absent from the parsed extract.
    MissingOsmCollection { object_type: String },
    /// An annotation code references an OSM id that the index does not hold.
    UnresolvedReference { osm_id: String },
    /// The entity already carries a geometry reference.
    DuplicateGeometryAssignment { entity_id: String },
    /// Two objects of one collection share an id.
    DuplicateIdentifier { id: String },
    /// The extract path is not representable as text.
    InvalidPath,
}

impl View for Error {
    type V = ErrorModel;

    open spec fn view(&self) -> ErrorModel {
        match self {
            Error::MissingOsmCollection { object_type } => (ErrorModel::MissingOsmCollection {
                object_type: object_type@,
            }),
            Error::UnresolvedReference { osm_id } => (ErrorModel::UnresolvedReference {
                osm_id: osm_id@,
            }),
            Error::DuplicateGeometryAssignment { entity_id } => (
            ErrorModel::DuplicateGeometryAssignment { entity_id: entity_id@ }),
            Error::DuplicateIdentifier { id } => (ErrorModel::DuplicateIdentifier { id: id@ }),
            Error::InvalidPath => ErrorModel::InvalidPath,
        }
    }
}

} // verus!
