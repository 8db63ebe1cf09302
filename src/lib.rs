//! Syntax trees with change metadata for a structural diff, and the
//! rendering of the changes as styled terminal text.

pub mod positions;
pub mod words;
pub mod syntax;
pub mod matching;
pub mod style;
pub mod metadata;
