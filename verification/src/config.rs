//! Configuration vocabulary: tag fields, severities, run statuses, and the
//! per-entry configuration records that the analysis pipeline consumes.

use vstd::prelude::*;

verus! {

/// Which text field of a run a tag's pattern is matched against.
#[derive(Clone, Copy, Debug, PartialEq, Eq, Structural)]
pub enum Field {
    Console,
    RunName,
    Artifact,
}

/// How severe a tag is. `Metadata` findings are kept but excluded from
/// issue totals, unknown-failure classification, and similarity clustering.
#[derive(Clone, Copy, Debug, PartialEq, Eq, Structural)]
pub enum Severity {
    Metadata,
    Info,
    Warning,
    Error,
}

/// Outcome of a build or run as reported by the CI server.
#[derive(Clone, Copy, Debug, PartialEq, Eq, Structural)]
pub enum BuildStatus {
    Success,
    Unstable,
    Failure,
    NotBuilt,
    Aborted,
}

impl Severity {
    /// Canonical string encoding of the severity, as persisted and as
    /// written in predicate expressions.
    pub fn as_str(&self) -> (r: &'static str)
        ensures
            r@ == self.spec_str(),
    {
        match self {
            Severity::Metadata => "Metadata",
            Severity::Info => "Info",
            Severity::Warning => "Warning",
            Severity::Error => "Error",
        }
    }

    pub open spec fn spec_str(self) -> Seq<char> {
        match self {
            Severity::Metadata => "Metadata"@,
            Severity::Info => "Info"@,
            Severity::Warning => "Warning"@,
            Severity::Error => "Error"@,
        }
    }
}

impl BuildStatus {
    /// Canonical string encoding of the status, as persisted.
    pub fn as_str(&self) -> (r: &'static str)
        ensures
            r@ == self.spec_str(),
    {
        match self {
            BuildStatus::Success => "Success",
            BuildStatus::Unstable => "Unstable",
            BuildStatus::Failure => "Failure",
            BuildStatus::NotBuilt => "NotBuilt",
            BuildStatus::Aborted => "Aborted",
        }
    }

    pub open spec fn spec_str(self) -> Seq<char> {
        match self {
            BuildStatus::Success => "Success"@,
            BuildStatus::Unstable => "Unstable"@,
            BuildStatus::Failure => "Failure"@,
            BuildStatus::NotBuilt => "NotBuilt"@,
            BuildStatus::Aborted => "Aborted"@,
        }
    }
}

/// One artifact class to retrieve: a path pattern plus optional
/// post-process and render command lines.
pub struct ConfigArtifact {
    /// Regex source matched against an artifact's relative path.
    pub path: Vec<u8>,
    /// Executable (argv) to pipe artifact bytes through after download.
    pub post_process: Option<Vec<Vec<u8>>>,
    /// Executable (argv) to render the artifact for the report.
    pub render: Option<Vec<Vec<u8>>>,
}

/// One named report view: a predicate expression over tags and severities.
pub struct TagView {
    /// Name of the view.
    pub name: Vec<u8>,
    /// Predicate expression source.
    pub expr: Vec<u8>,
}

/// One tag of the catalog as configured.
pub struct ConfigTag {
    /// Unique name of the tag.
    pub name: Vec<u8>,
    /// Human-readable description.
    pub desc: Vec<u8>,
    /// Regex source to match.
    pub pattern: Vec<u8>,
    /// Which run field the pattern applies to.
    pub from: Field,
    /// Severity category.
    pub severity: Severity,
}

} // verus!
