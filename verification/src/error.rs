//! The failures that reading calendar text can end in.

use vstd::prelude::*;

verus! {

/// The rule of the content-line grammar that a line broke.
#[derive(Clone, Copy, Debug, PartialEq, Eq)]
pub enum GrammarRule {
    /// A line name or parameter name holds a byte other than an ASCII letter,
    /// an ASCII digit or `-`.
    InvalidName,
    /// An unquoted parameter value holds a control byte or `"`.
    InvalidSafe,
    /// A quoted parameter value holds a control byte other than TAB.
    InvalidQuotedSafe,
    /// The line's value holds a control byte other than TAB.
    InvalidValue,
    /// No `;` or `:` ends the line's name.
    MissingNameEnd,
    /// No `=` ends a parameter's name.
    MissingEquals,
    /// No `"` closes a quoted parameter value.
    MissingClosingQuote,
    /// No `,`, `;` or `:` ends an unquoted parameter value.
    MissingValueEnd,
    /// The parameters are not followed by `:`.
    MissingColon,
}

/// The way in which a sequence of content lines fails to be one object.
#[derive(Clone, Copy, Debug, PartialEq, Eq)]
pub enum StructuralKind {
    /// The first line is missing, failed, or is not a `BEGIN` line.
    ExpectedBegin,
    /// The lines ran out before the `END` line of an open object.
    UnexpectedEnd,
    /// An `END` line names another type than the `BEGIN` line it closes.
    MismatchedEnd,
}

/// A failure, with the place where it was found.
#[derive(Clone, Copy, Debug, PartialEq, Eq)]
pub enum Error {
    /// The bytes of the logical line that starts at offset `at` of the stream
    /// are not UTF-8.
    EncodingFailure { at: usize },
    /// The physical line that starts at offset `at` of the stream does not end
    /// in CR LF.
    MalformedTermination { at: usize },
    /// The logical line that starts at offset `at` of the stream is empty.
    EmptyLine { at: usize },
    /// A content line breaks the grammar at byte offset `at` of the line.
    GrammarViolation { rule: GrammarRule, at: usize },
    /// The lines do not nest as `BEGIN` and `END` require.
    StructuralViolation { kind: StructuralKind },
}

/// What a result stands for: what the value holds, or the failure.
pub open spec fn viewed<T: View>(r: Result<T, Error>) -> Result<T::V, Error> {
    match r {
        Ok(value) => Ok(value@),
        Err(e) => Err(e),
    }
}

} // verus!
