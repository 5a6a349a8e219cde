//! The errors of pattern construction and matching.
use vstd::prelude::*;

verus! {

/// Why a pattern was refused, or why a match could not be completed.
#[derive(Debug, Clone, Copy, PartialEq, Eq)]
pub enum PatternError {
    InvalidPatternCapture,
    /// A back-reference `%n` to a capture that is not a closed one; holds `n - 1`.
    InvalidCaptureIndex(Option<i8>),
    EndsWithEscape,
    UnfinishedCharClass,
    MalformedBalance,
    MalformedFrontier,
    TooManyCaptures,
    MatchDepthExceeded,
    UnfinishedCapture,
    NoOpenCapture,
    NoCaptureLength,
}

/// The text that describes an error; a back-reference names the reference as written.
pub open spec fn describe(e: PatternError) -> &'static str {
    match e {
        PatternError::InvalidPatternCapture => "invalid pattern capture",
        PatternError::InvalidCaptureIndex(Some(i)) => if i == -1 {
            "invalid capture index %0"
        } else if i == 0 {
            "invalid capture index %1"
        } else if i == 1 {
            "invalid capture index %2"
        } else if i == 2 {
            "invalid capture index %3"
        } else if i == 3 {
            "invalid capture index %4"
        } else if i == 4 {
            "invalid capture index %5"
        } else if i == 5 {
            "invalid capture index %6"
        } else if i == 6 {
            "invalid capture index %7"
        } else if i == 7 {
            "invalid capture index %8"
        } else if i == 8 {
            "invalid capture index %9"
        } else {
            "invalid capture index"
        },
        PatternError::InvalidCaptureIndex(None) => "invalid capture index",
        PatternError::EndsWithEscape => "malformed pattern (ends with '%')",
        PatternError::UnfinishedCharClass => "malformed pattern (missing ']')",
        PatternError::MalformedBalance => "malformed pattern (missing arguments to '%b')",
        PatternError::MalformedFrontier => "malformed pattern (missing '[' after '%f' in pattern)",
        PatternError::TooManyCaptures => "too many captures",
        PatternError::MatchDepthExceeded => "pattern too complex",
        PatternError::UnfinishedCapture => "unfinished capture",
        PatternError::NoOpenCapture => "no open capture",
        PatternError::NoCaptureLength => "capture was unfinished or positional",
    }
}

impl PatternError {
    /// A description of the error for people.
    pub fn message(&self) -> (r: &'static str)
        ensures
            r == describe(*self),
    {
        match self {
            PatternError::InvalidPatternCapture => "invalid pattern capture",
            PatternError::InvalidCaptureIndex(Some(i)) => if *i == -1 {
                "invalid capture index %0"
            } else if *i == 0 {
                "invalid capture index %1"
            } else if *i == 1 {
                "invalid capture index %2"
            } else if *i == 2 {
                "invalid capture index %3"
            } else if *i == 3 {
                "invalid capture index %4"
            } else if *i == 4 {
                "invalid capture index %5"
            } else if *i == 5 {
                "invalid capture index %6"
            } else if *i == 6 {
                "invalid capture index %7"
            } else if *i == 7 {
                "invalid capture index %8"
            } else if *i == 8 {
                "invalid capture index %9"
            } else {
                "invalid capture index"
            },
            PatternError::InvalidCaptureIndex(None) => "invalid capture index",
            PatternError::EndsWithEscape => "malformed pattern (ends with '%')",
            PatternError::UnfinishedCharClass => "malformed pattern (missing ']')",
            PatternError::MalformedBalance => "malformed pattern (missing arguments to '%b')",
            PatternError::MalformedFrontier => "malformed pattern (missing '[' after '%f' in pattern)",
            PatternError::TooManyCaptures => "too many captures",
            PatternError::MatchDepthExceeded => "pattern too complex",
            PatternError::UnfinishedCapture => "unfinished capture",
            PatternError::NoOpenCapture => "no open capture",
            PatternError::NoCaptureLength => "capture was unfinished or positional",
        }
    }
}

} // verus!
