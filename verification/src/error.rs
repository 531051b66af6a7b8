//! What can be wrong with a pattern.

use vstd::prelude::*;

verus! {

/// The reason a pattern does not compile.
#[derive(Clone, Copy, Debug, PartialEq, Eq, Structural)]
pub enum CompileError {
    /// The pattern has no characters.
    EmptyPattern,
    /// A `*`, `+` or `?` has nothing before it to repeat, or a `|` has no
    /// alternative before it.
    DanglingQuantifier,
    /// A `|` is the last character of the pattern.
    TrailingAlternation,
    /// A `)` closes no group, or a `(` is never closed.
    UnbalancedGroup,
}

impl CompileError {
    /// The text of [`CompileError::message`].
    pub open spec fn text(self) -> Seq<char> {
        match self {
            CompileError::EmptyPattern =>
                "Invalid regex, compilation failed. Empty patterns are not allowed"@,
            CompileError::DanglingQuantifier =>
                "Invalid regex, compilation failed. Invalid regex pattern"@,
            CompileError::TrailingAlternation =>
                "Invalid regex, compilation failed. Invalid regex pattern"@,
            CompileError::UnbalancedGroup =>
                "Invalid regex, compilation failed. Unbalanced group"@,
        }
    }

    /// A sentence for the user.
    pub fn message(&self) -> (text: String)
        ensures
            text@ == self.text(),
    {
        match self {
            CompileError::EmptyPattern =>
                "Invalid regex, compilation failed. Empty patterns are not allowed".to_string(),
            CompileError::DanglingQuantifier =>
                "Invalid regex, compilation failed. Invalid regex pattern".to_string(),
            CompileError::TrailingAlternation =>
                "Invalid regex, compilation failed. Invalid regex pattern".to_string(),
            CompileError::UnbalancedGroup =>
                "Invalid regex, compilation failed. Unbalanced group".to_string(),
        }
    }
}

} // verus!
