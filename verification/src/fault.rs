//! The inputs on which matching cannot go on: each variant names one.
use vstd::prelude::*;

verus! {

/// Why a match could not be carried out.
#[derive(Debug, Clone, Copy, PartialEq, Eq, Structural)]
pub enum MatchError {
    /// A pattern segment (or the glob scanner itself) does not compile as a regex.
    InvalidRegex,
    /// A segment's regex has more or fewer capturing groups than template variables.
    CaptureCountMismatch,
    /// A template variable's name starts with `**`.
    CapturingVariable,
    /// A capturing group took no part in the match.
    UnmatchedGroup,
    /// The regex matched but gave no capture groups.
    MissingCaptures,
    /// An empty separator, under which skipping separators never ends.
    EmptySeparator,
    /// A byte offset that is not a character boundary of the path, or past its end.
    NotCharBoundary,
    /// A character index past the last character of the path.
    CharIndexOutOfRange,
    /// The path does not match the pattern, so no variables can be taken from it.
    NoMatch,
    /// The path has fewer segments than the pattern.
    PathTooShort,
    /// The walk between `**` segments met a pattern without the `**` it expects.
    UnexpectedPatternShape,
}

} // verus!
