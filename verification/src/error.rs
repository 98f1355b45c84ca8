//! The fatal error kinds of the pipeline. An unmappable raw activity code is
//! not an error: such a record is silently dropped by the remapper.

use vstd::prelude::*;

verus! {

/// A fatal pipeline error.
#[derive(Debug, PartialEq, Eq)]
pub enum EncodingError {
    /// The configured block duration does not divide a day evenly.
    /// Raised before any block array is produced or persisted.
    ConfigurationError { block_duration_minutes: usize },
    /// A start or stop time field did not split into exactly three numeric
    /// fields, or a field was out of range. Aborts the whole remap batch.
    MalformedTimestamp { timestamp: String },
    /// A block file holds fewer bytes than its own header declares.
    /// `expected` is the byte count the header calls for.
    TruncatedFile { expected: u128, actual: usize },
}

} // verus!
