//! The failures that the library reports.

use vstd::prelude::*;

verus! {

/// A setting that is refused before any work is done.
#[derive(Debug, PartialEq, Eq, Structural, Clone, Copy)]
pub enum ConfigurationError {
    /// The shingle length was 0; it has to be at least 1.
    ZeroShingleLength,
    /// A field was selected by a name that no field has.
    UnknownField,
}

/// A posting list names a record that the record set does not hold: the
/// index was built from other records.
#[derive(Debug)]
pub struct ConsistencyError {
    /// The shingle whose posting list holds the id.
    pub shingle: String,
    /// The id without a record.
    pub id: String,
}

} // verus!
