use vstd::prelude::*;

verus! {

/// How serious a diagnostic is. Only errors make a repository invalid.
#[derive(Debug, Clone, Copy, PartialEq, Eq, Structural)]
pub enum Severity {
    Error,
    Warning,
}

/// A one-based line and column (column counted in bytes) inside a source file.
#[derive(Debug, Clone, Copy, PartialEq, Eq, Structural)]
pub struct Position {
    pub line: usize,
    pub column: usize,
}

/// A half-open region of a source file.
#[derive(Debug, Clone, Copy, PartialEq, Eq, Structural)]
pub struct SourceRange {
    pub start: Position,
    pub end: Position,
}

/// A secondary location that helps explain a diagnostic.
#[derive(Debug, Clone)]
pub struct RelatedLocation {
    pub message: String,
    pub path: String,
    pub pointer: Option<String>,
    pub range: Option<SourceRange>,
}

/// One finding with a stable rule code, a JSON pointer and a best-effort range.
#[derive(Debug, Clone)]
pub struct Diagnostic {
    pub severity: Severity,
    pub code: String,
    pub message: String,
    pub path: String,
    pub pointer: Option<String>,
    pub range: Option<SourceRange>,
    pub subject_id: Option<String>,
    pub related: Vec<RelatedLocation>,
}

/// One file of the repository snapshot: its repository-relative path and text.
#[derive(Debug, Clone)]
pub struct SourceFile {
    pub path: String,
    pub source: String,
}

/// The outcome of validating a repository snapshot.
#[derive(Debug, Clone)]
pub struct ValidationReport {
    pub validator_version: String,
    pub format_version: Option<String>,
    pub valid: bool,
    pub diagnostics: Vec<Diagnostic>,
    pub features: Vec<String>,
}

/// A zero-width range at `position`.
pub fn point_range(position: Position) -> (r: SourceRange)
    ensures
        r.start == position,
        r.end == position,
{
    SourceRange { start: position, end: position }
}

} // verus!
