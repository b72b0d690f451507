//! From a status report to the text that is printed or written: the summary
//! of the report, the summary with its trailer, and the summary in front of
//! what a message file held before.
use crate::parser::{lemma_report_errors, parse, parse_bytes, ParseError};
use crate::render::{lemma_render_empty_iff_no_changes, render, render_status};
use vstd::prelude::*;
use vstd::string::StringExecFns;

verus! {

/// Why there is no summary to show.
#[derive(Clone, Copy, Debug, PartialEq, Eq, Structural)]
pub enum SummaryError {
    /// The report could not be read.
    Parse(ParseError),
    /// The report was read and holds no change.
    EmptySummary,
}

/// What follows the summary on standard output.
pub open spec fn trailer() -> Seq<char> {
    "\n\nQuick-committed"@
}

/// The summary of a report, or the reason why there is none.
pub open spec fn summary_of(bytes: Seq<u8>) -> Result<Seq<char>, SummaryError> {
    match parse_bytes(bytes) {
        Err(e) => Err(SummaryError::Parse(e)),
        Ok(changes) => if changes.total() == 0 {
            Err(SummaryError::EmptySummary)
        } else {
            Ok(render(changes))
        },
    }
}

/// The summary followed by the trailer.
pub open spec fn trailed(summary: Seq<char>) -> Seq<char> {
    summary + trailer()
}

/// The summary, a line break, and what the message file held before.
pub open spec fn prepended(summary: Seq<char>, previous: Seq<char>) -> Seq<char> {
    summary.push('\n') + previous
}

/// The mathematical value of what [`summarize`] returned.
pub open spec fn summary_outcome(res: Result<String, SummaryError>) -> Result<
    Seq<char>,
    SummaryError,
> {
    match res {
        Ok(summary) => Ok(summary@),
        Err(e) => Err(e),
    }
}

/// A report has a summary exactly when it can be read and holds a change;
/// the summary is then not empty. A report without bytes, and no other, is
/// refused as `FetchEmpty`. A report that can be read but holds no change
/// is refused as `EmptySummary`, and its rendered text is empty.
pub proof fn lemma_summary_cases(bytes: Seq<u8>)
    ensures
        bytes.len() == 0 <==> summary_of(bytes) == Err::<Seq<char>, SummaryError>(
            SummaryError::Parse(ParseError::FetchEmpty),
        ),
        parse_bytes(bytes) matches Err(e) ==> summary_of(bytes) == Err::<Seq<char>, SummaryError>(
            SummaryError::Parse(e),
        ),
        parse_bytes(bytes) matches Ok(changes) ==> {
            &&& changes.total() == 0 ==> render(changes).len() == 0 && summary_of(bytes) == Err::<
                Seq<char>,
                SummaryError,
            >(SummaryError::EmptySummary)
            &&& changes.total() > 0 ==> render(changes).len() > 0 && summary_of(bytes) == Ok::<
                Seq<char>,
                SummaryError,
            >(render(changes))
        },
{
    lemma_report_errors(bytes);
    if let Ok(changes) = parse_bytes(bytes) {
        lemma_render_empty_iff_no_changes(changes);
    }
}

/// Reads a status report and writes its summary.
pub fn summarize(bytes: &[u8]) -> (res: Result<String, SummaryError>)
    ensures
        summary_outcome(res) == summary_of(bytes@),
        res matches Ok(summary) ==> summary@.len() > 0,
{
    match parse(bytes) {
        Err(e) => Err(SummaryError::Parse(e)),
        Ok(changes) => {
            let summary = render_status(changes);
            if summary.as_str().is_empty() {
                Err(SummaryError::EmptySummary)
            } else {
                Ok(summary)
            }
        },
    }
}

/// The text for standard output: the summary followed by the trailer.
pub fn with_trailer(summary: &str) -> (text: String)
    ensures
        text@ == trailed(summary@),
{
    let mut text = String::new();
    text.append(summary);
    text.append("\n\nQuick-committed");
    proof {
        assert(text@ =~= trailed(summary@));
    }
    text
}

/// The new content of a message file: the summary, a line break, and what
/// the file held before.
pub fn prepend_summary(summary: &str, previous: &str) -> (content: String)
    ensures
        content@ == prepended(summary@, previous@),
{
    let mut content = String::new();
    content.append(summary);
    content.push('\n');
    content.append(previous);
    proof {
        assert(content@ =~= prepended(summary@, previous@));
    }
    content
}

} // verus!
