//! What can go wrong while rendering.

use vstd::prelude::*;

verus! {

/// Misconfiguration of a template, found while rendering it.
#[derive(Clone, Copy, Debug, PartialEq, Eq, Structural)]
pub enum TemplateFault {
    /// The placeholder pattern is not a valid regular expression.
    Pattern,
    /// A placeholder was matched without a field name.
    Syntax,
    /// The width of a placeholder is not a decimal number that fits a `usize`.
    Width,
    /// The field name is not one of the known fields.
    UnknownField,
    /// `response` was used where no tree connector exists.
    ResponseOutsideTree,
}

/// Failure of a rendering operation. The first failure met in traversal
/// order ends the whole operation.
#[derive(Clone, Copy, Debug, PartialEq, Eq, Structural)]
pub enum Error {
    /// The store could not decode a header that had to be read.
    HeaderAccess,
    /// The template cannot be rendered as configured.
    Template(TemplateFault),
    /// A date that the output needs cannot be written: the timestamp is out
    /// of the calendar's range or the date format is invalid.
    Date,
}

} // verus!
