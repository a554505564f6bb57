//! Error kinds of the accelerator core.
//!
//! Validation errors abort the current call; a per-record parser error is
//! counted in the stream statistics and the stream continues.

use vstd::prelude::*;

verus! {

#[derive(Clone, Copy, Debug, PartialEq, Eq, Structural)]
pub enum SparserError {
    /// Empty query, empty predicate, or too many predicates.
    InputValidation,
    /// The calibration buffer yields no delimited record.
    InsufficientSamples,
    /// A bitmap or scratch buffer could not be allocated.
    AllocationFailed,
    /// A raw filter's width is not 1, 2 or 4 bytes.
    KernelUnsupported,
    /// The parser callback signalled a record-level error.
    ParserError,
}

} // verus!
