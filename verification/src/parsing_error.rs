//! Typed parsing failures.
//!
//! Parsing a raw record aborts on the first offending value; the error names
//! the attribute at fault and either the expected shape or the reason the
//! attribute is required.

use vstd::prelude::*;

verus! {

/// The view of a [`ParsingError`], over character sequences.
pub enum ParsingErrorView {
    MismatchType { attribute: Seq<char>, expected: Seq<char> },
    MissingAttribute { attribute: Seq<char>, reason: Seq<char> },
}

/// Why a raw record failed to parse: a source value whose shape did not
/// match the expected type at a named attribute, or a required attribute
/// that is absent.
#[derive(Debug)]
pub enum ParsingError {
    MismatchType { attribute: String, expected: String },
    MissingAttribute { attribute: String, reason: String },
}

impl View for ParsingError {
    type V = ParsingErrorView;

    open spec fn view(&self) -> ParsingErrorView {
        match self {
            ParsingError::MismatchType { attribute, expected } => ParsingErrorView::MismatchType {
                attribute: attribute@,
                expected: expected@,
            },
            ParsingError::MissingAttribute { attribute, reason } => ParsingErrorView::MissingAttribute {
                attribute: attribute@,
                reason: reason@,
            },
        }
    }
}

} // verus!
