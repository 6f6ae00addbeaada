//! Error kinds surfaced by the builder, the loader and the query
//! parser.

use vstd::prelude::*;

verus! {

/// A fatal condition: a malformed input stream or query line, a missing
/// required parameter, or a count that does not fit its integer type.
#[derive(Debug, Clone, Copy, PartialEq, Eq, Structural)]
pub enum BmpError {
    /// Malformed input: negative counts, out-of-order or duplicate
    /// documents or terms, a truncated or unparsable record, or a query
    /// line without its separator.
    InputMalformed,
    /// A required builder parameter was not set.
    ResourceMissing,
    /// A count, document id or term frequency does not fit in its
    /// integer type.
    NumericOverflow,
}

} // verus!
