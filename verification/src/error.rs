//! Fatal conditions of a run.
//!
//! The pipeline is a single-pass batch job with no partial-result
//! contract: every condition below aborts the whole run rather than
//! being recovered or skipped, since silently dropping a malformed
//! record would corrupt the aggregate statistics without any signal.

use vstd::prelude::*;

verus! {

/// A condition that aborts the run.
#[derive(Clone, Copy, Debug, PartialEq, Eq, Structural)]
pub enum Error {
    /// A scanned record segment contains no delimiter byte.
    MalformedRecord,
    /// A value segment does not parse as a decimal number with at most
    /// one fractional digit, or its magnitude in tenths does not fit a
    /// machine word.
    InvalidNumber,
    /// A single logical record exceeds the read-buffer capacity, so no
    /// record-aligned block could ever contain it.
    RecordTooLong,
}

} // verus!
