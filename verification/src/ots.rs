//! What the OpenType sanitizer has said of a font.

use vstd::prelude::*;
use vstd::string::StringExecFns;
use crate::text::{collect_lines, lines_with, texts, trim, trimmed};

verus! {

/// What came of one run of the sanitizer.
#[derive(Debug, Clone)]
pub struct OtsReport {
    /// Whether the font passed.
    pub success: bool,
    /// The lines that begin with `ERROR:`.
    pub errors: Vec<String>,
    /// The lines that begin with `WARNING:`.
    pub warnings: Vec<String>,
    /// All that the sanitizer wrote.
    pub raw_stderr: String,
}

/// Reads what a run of the sanitizer has written.
pub fn read_report(success: bool, stderr: String) -> (r: OtsReport)
    ensures
        r.success == success,
        texts(r.errors@) == lines_with(stderr@, "ERROR:"@, 0),
        texts(r.warnings@) == lines_with(stderr@, "WARNING:"@, 0),
        r.raw_stderr@ == stderr@,
{
    let errors = collect_lines(stderr.as_str(), "ERROR:");
    let warnings = collect_lines(stderr.as_str(), "WARNING:");
    OtsReport { success, errors, warnings, raw_stderr: stderr }
}

/// What is said of a font that the sanitizer has refused.
pub open spec fn rejection_text(font: Seq<char>, said: Seq<char>) -> Seq<char> {
    "OTS rejected "@ + font + ":\n"@ + said
}

/// Says that the sanitizer has refused a font, and what it has said of it.
pub fn rejection(font: &str, said: &str) -> (r: String)
    ensures
        r@ == rejection_text(font@, said@),
{
    let mut s = String::from_str("OTS rejected ");
    s.append(font);
    s.append(":\n");
    s.append(said);
    s
}

/// Passes the report of a font that the sanitizer has let pass. For any other the error names the
/// font and gives what the sanitizer has written, without white space at the ends.
pub fn assert_sanitized(font: &str, report: OtsReport) -> (r: Result<OtsReport, String>)
    ensures
        match r {
            Ok(passed) => report.success && passed == report,
            Err(text) => !report.success && text@ == rejection_text(
                font@,
                trimmed(report.raw_stderr@),
            ),
        },
{
    if report.success {
        Ok(report)
    } else {
        let said = trim(report.raw_stderr.as_str());
        Err(rejection(font, said.as_str()))
    }
}

} // verus!
