//! The document-content fetcher's decisions. The rate limiter gates
//! only the start of each unit of work; what a unit does with the
//! response is decided here: save the body, record a skip, or abort the
//! run on a rate-limit response that the throttle should have made
//! impossible.

use vstd::prelude::*;
use crate::docs::FrDocNo;
use crate::error::FatalError;
use crate::matcher::DocNoSet;

verus! {

/// What one document's content fetch comes to.
#[derive(PartialEq, Eq, Debug, Structural)]
pub enum FetchOutcome {
    /// A success response with HTML content: write the body.
    Save,
    /// A non-success status: record the document as skipped.
    SkipBadStatus,
    /// A success response whose content is not HTML: record the
    /// document as skipped.
    SkipNotHtml,
}

/// Decide what to do with a document-body response: only a success
/// status with HTML content saves the body, and any other status is
/// recorded as a skip. A rate-limit response while fetch starts are
/// throttled breaks the limiter's assumption and aborts the run.
pub fn classify_response(status: u16, is_html: bool) -> (r: Result<FetchOutcome, FatalError>)
    ensures
        status == 429 ==> (r matches Err(e) && e == FatalError::RateLimitedWhileThrottled),
        status != 429 && !(200 <= status < 300) ==> (r matches Ok(o) && o
            == FetchOutcome::SkipBadStatus),
        200 <= status < 300 && !is_html ==> (r matches Ok(o) && o == FetchOutcome::SkipNotHtml),
        200 <= status < 300 && is_html ==> (r matches Ok(o) && o == FetchOutcome::Save),
{
    if status == 429 {
        Err(FatalError::RateLimitedWhileThrottled)
    } else if status < 200 || status >= 300 {
        Ok(FetchOutcome::SkipBadStatus)
    } else if !is_html {
        Ok(FetchOutcome::SkipNotHtml)
    } else {
        Ok(FetchOutcome::Save)
    }
}

/// Record a fetch outcome: a skipped document joins the skipped set and
/// is thereby excluded from the document table, a saved one does not.
pub fn record_outcome(skipped: &mut DocNoSet, docno: &FrDocNo, outcome: FetchOutcome)
    requires
        old(skipped).wf(),
    ensures
        final(skipped).wf(),
        outcome == FetchOutcome::Save ==> final(skipped)@ == old(skipped)@,
        outcome != FetchOutcome::Save ==> final(skipped)@ == old(skipped)@.insert(docno@),
{
    match outcome {
        FetchOutcome::Save => {},
        FetchOutcome::SkipBadStatus => {
            skipped.insert(docno.clone());
        },
        FetchOutcome::SkipNotHtml => {
            skipped.insert(docno.clone());
        },
    }
}

} // verus!
