//! The run-aborting fault conditions of the pipeline, surfaced as a
//! distinguished error type instead of a process abort, so that the
//! caller decides how to end the run.

use vstd::prelude::*;

verus! {

/// A fault that aborts the whole run: none of these is recovered from.
#[derive(PartialEq, Eq, Debug, Structural)]
pub enum FatalError {
    /// A cache file failed to deserialize.
    MalformedCache,
    /// A non-success HTTP status on a cache-populating fetch.
    HttpFailure,
    /// The merged search-result count does not match the reported count.
    CountInvariant,
    /// A document's declared citation string is malformed or disagrees
    /// with its recorded start page.
    CitationMismatch,
    /// A citation number in markup does not fit in 32 bits.
    CitationOverflow,
    /// The markup could not be tokenized.
    MalformedMarkup,
    /// A citation's ancestor tags have a shape the extractor does not
    /// understand.
    UnclassifiableAncestor,
    /// A division tag lacks its name or type attribute.
    MissingAttribute,
    /// A citation stands where it has no enclosing tag to classify by.
    MissingAncestor,
    /// A rate-limit response arrived although fetch starts were
    /// throttled.
    RateLimitedWhileThrottled,
    /// The selected top-level division is entirely reserved.
    ReservedTitle,
}

} // verus!
