//! The events a YAML parser produces.
use vstd::prelude::*;

use crate::scanner::{ScanError, Span};

verus! {

/// How a scalar was written in the source.
#[derive(Clone, Copy, Debug, PartialEq, Eq, Structural)]
pub enum ScalarStyle {
    Plain,
    SingleQuoted,
    DoubleQuoted,
    Literal,
    Folded,
}

/// A resolved tag: its handle (such as `!!`) and its suffix.
#[derive(Clone, Debug, PartialEq, Eq)]
pub struct Tag {
    pub handle: String,
    pub suffix: String,
}

/// An event of the YAML event stream.
///
/// Anchor ids are 0 where a node carries no anchor.
#[derive(Clone, Debug, PartialEq, Eq)]
pub enum Event {
    /// Reserved for internal use.
    Nothing,
    StreamStart,
    StreamEnd,
    /// The start of a document; `true` when it was opened explicitly with `---`.
    DocumentStart(bool),
    DocumentEnd,
    /// A reference to the anchor with the given id.
    Alias(usize),
    /// A scalar value, its style, its anchor id and its tag.
    Scalar(String, ScalarStyle, usize, Option<Tag>),
    /// The start of a sequence, with its anchor id and tag.
    SequenceStart(usize, Option<Tag>),
    SequenceEnd,
    /// The start of a mapping, with its anchor id and tag.
    MappingStart(usize, Option<Tag>),
    MappingEnd,
}

/// What a parser hands out for each step: an event with its span, or an error.
pub type ParseResult = Result<(Event, Span), ScanError>;

} // verus!
