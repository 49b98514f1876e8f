//! Errors of a dataset build.

use vstd::prelude::*;

verus! {

/// The decoder could not read an element of the extract.
#[derive(Debug, Clone, PartialEq, Eq)]
pub struct DecodeError {
    pub message: String,
}

impl DecodeError {
    /// A copy of the error, with the same message.
    pub fn duplicate(&self) -> (r: DecodeError)
        ensures
            r == *self,
    {
        DecodeError { message: self.message.clone() }
    }
}

/// The constraint of the raw tables that an insert broke.
#[derive(Debug, Clone, Copy, PartialEq, Eq, Structural)]
pub enum Constraint {
    /// An identifier is negative.
    NegativeId,
    /// A latitude or longitude lies off the globe.
    CoordinateRange,
    /// A row with the same identifier is already in the table.
    DuplicateId,
}

/// Why a dataset build was abandoned. Every variant is fatal: nothing of the
/// build is kept.
#[derive(Debug, Clone, PartialEq, Eq)]
pub enum BuildError {
    /// The path does not name an extract: it does not end in `.osm.pbf`.
    Path,
    /// The extract could not be decoded.
    Decode(DecodeError),
    /// The element with this identifier broke a constraint of the raw tables.
    SchemaViolation(i64, Constraint),
    /// These relations depend on themselves through other relations and can
    /// never be resolved.
    UnresolvedDependency(Vec<i64>),
    /// The way or relation with this identifier has no member whose
    /// coordinates are known.
    DegenerateGeometry(i64),
}

} // verus!
