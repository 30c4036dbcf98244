//! A forgiving parser for an HTML-like markup subset.
//!
//! The input is a buffer of bytes. [`DomTree::analyze_html`] reads it into a
//! [`Document`]: the tags, end tags and pieces of text of the buffer, in
//! runs that are linked to one another, and a list of what was wrong with
//! the buffer. Nothing is copied: every name, value and piece of text in the
//! result is a sub-slice of the buffer. No input makes the parser fail or
//! run on without end: what is no tag is kept as text.
//!
//! The grammar is also there piece by piece: [`parser_element`] for one tag,
//! [`parser_attr`] for one attribute, [`parser_attr_value`] for one value.
//! Each parser takes the input that is left and returns what is left behind
//! what it has read.
//!
//! Every function states, over sequences of bytes, what it returns; the
//! functions that begin with `spec_` say what that is. The modules:
//!
//! - [`scanner`]: the classes of bytes, and the runs of bytes of one class;
//! - [`value`], [`attr`], [`style`], [`element`]: the grammar of a tag;
//! - [`node`]: the pieces of a document, and how the next one is read;
//! - [`assembly`]: the rules by which pieces become runs, a stack of open
//!   elements and diagnostics;
//! - [`assembler`]: the state that follows those rules;
//! - [`tree`]: the document and its reading;
//! - [`cuts`]: where the grammar cuts its input, and what that keeps: what
//!   is read from a buffer is a part of it, and valid UTF-8 where it is;
//! - [`error`]: the kinds of failure.

pub mod assembler;
pub mod assembly;
pub mod attr;
pub mod cuts;
pub mod element;
pub mod error;
pub mod node;
pub mod scanner;
pub mod style;
pub mod tree;
pub mod value;

pub use crate::assembler::Assembler;
pub use crate::attr::{parser_attr, Attr};
pub use crate::element::{parser_element, DomElement};
pub use crate::error::ParseError;
pub use crate::node::{classify, next_node, parser_end_tag, Diagnostic, DomNodeType, Step};
pub use crate::scanner::{is_element_char, is_space, skip_space, while_element1};
pub use crate::style::parser_style;
pub use crate::tree::{Document, DomTree};
pub use crate::value::parser_attr_value;
