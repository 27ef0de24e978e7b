//! Semantic validation of complete Narrator story repositories.
#![verifier::loop_isolation(false)]

pub mod report;
pub mod text;
pub mod yaml;
pub mod ids;
pub mod kinds;
pub mod pointers;
pub mod locate;
pub mod graph;
pub mod version;
pub mod model;
pub mod repository;
pub mod items;
pub mod case;
pub mod values;
pub mod references;
pub mod commands;
pub mod conditions;
pub mod facts;
pub mod triggers;
pub mod navigation;
pub mod terminal;
pub mod strict;
pub mod api;

pub use report::{Diagnostic, Position, RelatedLocation, Severity, SourceFile, SourceRange, ValidationReport};
pub use api::{validate, validate_with_supported_features};
