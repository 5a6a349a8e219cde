//! Lua-style string patterns over bytes: classes, bracket sets, repetition,
//! anchors, balanced and frontier items, captures and back-references.
//!
//! A pattern is checked once when it is built, then interpreted directly by a
//! backtracking matcher whose meaning is stated in `matcher::match_from`.
pub mod builder;
pub mod classes;
pub mod errors;
pub mod laws;
pub mod matcher;
pub mod pattern;
pub mod subst;
pub mod validate;

pub use crate::builder::LuaPatternBuilder;
pub use crate::errors::PatternError;
pub use crate::matcher::{LuaMatch, MAX_CAPTURES, MAX_DEPTH};
pub use crate::pattern::{
    ByteCaptures, Captures, CapturesUnsafe, GMatch, GMatchBytes, GMatchCaptures, LuaPattern,
};
pub use crate::subst::{generate_gsub_patterns, Subst, Substitute};
