//! Pure helpers of the report's read side: canonical display words and
//! style classes for statuses and severities. The HTML renderer itself is
//! an external collaborator of the cache's read API.

use vstd::prelude::*;

use crate::config::{BuildStatus, Severity};

verus! {

/// The display word of a run or build status.
pub open spec fn spec_status_str(status: Option<BuildStatus>) -> Seq<char> {
    match status {
        Some(BuildStatus::Success) => "good"@,
        Some(BuildStatus::Failure) => "bad"@,
        Some(BuildStatus::Unstable) => "unstable"@,
        Some(BuildStatus::NotBuilt) => "not built"@,
        Some(BuildStatus::Aborted) => "aborted"@,
        None => "no build"@,
    }
}

/// The display word of a run or build status.
pub fn status_as_str(status: &Option<BuildStatus>) -> (r: &'static str)
    ensures
        r@ == spec_status_str(*status),
{
    match status {
        Some(BuildStatus::Success) => "good",
        Some(BuildStatus::Failure) => "bad",
        Some(BuildStatus::Unstable) => "unstable",
        Some(BuildStatus::NotBuilt) => "not built",
        Some(BuildStatus::Aborted) => "aborted",
        None => "no build",
    }
}

/// The style class of a status: errors, warnings and information for
/// failed, unstable and aborted runs, nothing otherwise.
pub open spec fn spec_status_class(status: Option<BuildStatus>) -> Option<Seq<char>> {
    match status {
        Some(BuildStatus::Failure) => Some("error"@),
        Some(BuildStatus::Unstable) => Some("warning"@),
        Some(BuildStatus::Aborted) => Some("info"@),
        _ => None,
    }
}

/// The style class of a status.
pub fn status_as_class(status: &Option<BuildStatus>) -> (r: Option<&'static str>)
    ensures
        match r {
            Some(c) => spec_status_class(*status) == Some(c@),
            None => spec_status_class(*status) is None,
        },
{
    match status {
        Some(BuildStatus::Failure) => Some("error"),
        Some(BuildStatus::Unstable) => Some("warning"),
        Some(BuildStatus::Aborted) => Some("info"),
        _ => None,
    }
}

/// The style class of a severity: metadata findings carry none.
pub open spec fn spec_severity_class(severity: Severity) -> Option<Seq<char>> {
    match severity {
        Severity::Error => Some("error"@),
        Severity::Warning => Some("warning"@),
        Severity::Info => Some("info"@),
        Severity::Metadata => None,
    }
}

/// The style class of a severity.
pub fn severity_as_class(severity: &Severity) -> (r: Option<&'static str>)
    ensures
        match r {
            Some(c) => spec_severity_class(*severity) == Some(c@),
            None => spec_severity_class(*severity) is None,
        },
{
    match severity {
        Severity::Error => Some("error"),
        Severity::Warning => Some("warning"),
        Severity::Info => Some("info"),
        Severity::Metadata => None,
    }
}

} // verus!
