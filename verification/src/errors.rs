//! Failure conditions reported by the storage layer.
use vstd::prelude::*;

verus! {

/// What went wrong in a layer operation.
#[derive(Debug, PartialEq, Eq)]
pub enum Error {
    /// The persisted image is damaged; the boxed value names the part that
    /// could not be decoded ([`Error::InvalidLayer`] or
    /// [`Error::InvalidSection`]).
    DBCorrupt(Box<Error>),
    /// The 24-byte layer header is short or malformed.
    InvalidLayer,
    /// A section record is short, malformed, or disagrees with the header.
    InvalidSection,
    /// No stored section fully contains the requested range.
    OutOfBounds,
    /// A write was attempted on a layer that has been moved to disk.
    ReadOnly,
}

/// The error reported for a damaged header.
pub open spec fn corrupt_layer() -> Error {
    Error::DBCorrupt(Box::new(Error::InvalidLayer))
}

/// The error reported for a damaged section record.
pub open spec fn corrupt_section() -> Error {
    Error::DBCorrupt(Box::new(Error::InvalidSection))
}

} // verus!
