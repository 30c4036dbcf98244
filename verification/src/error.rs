//! What can be wrong with a piece of markup.

use vstd::prelude::*;

verus! {

/// The ways in which markup can fail to parse, or a document to nest.
#[derive(Clone, Copy, Debug, PartialEq, Eq)]
pub enum ParseError {
    /// A `<` is not followed by a name.
    EmptyTagName,
    /// A piece of punctuation that the grammar requires is missing: the `<`,
    /// `>` or `/>` of a tag, the `>` of an end tag, the whitespace before an
    /// attribute or its name, the `=` before a value or the value behind it.
    MalformedTag,
    /// A quoted value has no closing quote that a scan over plain bytes and
    /// escapes of the quote and the backslash reaches.
    UnterminatedQuotedValue,
    /// An end tag names no tag that is open.
    UnmatchedEndTag,
    /// A tag is still open where the input ends.
    UnterminatedDocument,
}

} // verus!
