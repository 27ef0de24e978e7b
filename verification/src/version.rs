//! Story format versions, read as semantic versions.

use vstd::prelude::*;

verus! {

/// A semantic version: its numeric core and its canonical rendering.
#[derive(Debug)]
pub struct StoryVersion {
    pub major: u64,
    pub minor: u64,
    pub patch: u64,
    /// The version as `semver` renders it (`major.minor.patch[-pre][+build]`).
    pub text: String,
}

/// What `semver::Version::parse` reads from `text`: the major, minor and patch numbers
/// and the canonical rendering, or nothing when `text` is not a semantic version.
pub uninterp spec fn semver_version_of(text: Seq<char>) -> Option<(u64, u64, u64, Seq<char>)>;

/// Parses `text` with `semver::Version::parse` and keeps its numeric core and its
/// `Display` rendering. Nothing is claimed of the grammar beyond the result being a
/// function of `text`.
#[verifier::external_body]
pub(crate) fn parse_story_version(text: &str) -> (r: Option<StoryVersion>)
    ensures
        match r {
            Some(v) => semver_version_of(text@) == Some((v.major, v.minor, v.patch, v.text@)),
            None => semver_version_of(text@) is None,
        },
{
    match semver::Version::parse(text) {
        Ok(version) => Some(StoryVersion {
            major: version.major,
            minor: version.minor,
            patch: version.patch,
            text: version.to_string(),
        }),
        Err(_) => None,
    }
}

impl StoryVersion {
    /// A copy of this version.
    pub fn copy(&self) -> (r: StoryVersion)
        ensures
            r.major == self.major,
            r.minor == self.minor,
            r.patch == self.patch,
            r.text@ == self.text@,
    {
        StoryVersion { major: self.major, minor: self.minor, patch: self.patch, text: self.text.clone() }
    }
}

/// Story format 3 at or after minor version `minor`.
pub open spec fn spec_is_format_3_from(v: Option<StoryVersion>, minor: u64) -> bool {
    match v {
        Some(v) => v.major == 3 && v.minor >= minor,
        None => false,
    }
}

/// Whether `v` is story format 3 with at least the given minor version.
pub fn is_format_3_from(v: &Option<StoryVersion>, minor: u64) -> (r: bool)
    ensures
        r == spec_is_format_3_from(*v, minor),
{
    match v {
        Some(v) => v.major == 3 && v.minor >= minor,
        None => false,
    }
}

} // verus!
