//! Positions, spans and errors reported while scanning YAML text.
use vstd::prelude::*;

verus! {

/// A location in the input: character offset, line (1-based) and column (0-based).
#[derive(Clone, Copy, Debug, PartialEq, Eq, Structural)]
pub struct Marker {
    pub index: usize,
    pub line: usize,
    pub col: usize,
}

impl Marker {
    /// Creates a marker at the given offset, line and column.
    pub fn new(index: usize, line: usize, col: usize) -> (m: Marker)
        ensures
            m == (Marker { index, line, col }),
    {
        Marker { index, line, col }
    }
}

/// The stretch of input that an event was read from.
#[derive(Clone, Copy, Debug, PartialEq, Eq, Structural)]
pub struct Span {
    pub start: Marker,
    pub end: Marker,
}

impl Span {
    /// Creates a span from `start` to `end`.
    pub fn new(start: Marker, end: Marker) -> (s: Span)
        ensures
            s == (Span { start, end }),
    {
        Span { start, end }
    }

    /// Creates an empty span located at `mark`.
    pub fn empty(mark: Marker) -> (s: Span)
        ensures
            s == (Span { start: mark, end: mark }),
    {
        Span { start: mark, end: mark }
    }
}

/// An error found while scanning or parsing, with the place it was found at
/// and a human-readable description.
#[derive(Clone, Debug, PartialEq, Eq)]
pub struct ScanError {
    pub mark: Marker,
    pub info: String,
}

impl ScanError {
    /// Creates an error at `mark` with the description `info`.
    pub fn new(mark: Marker, info: String) -> (e: ScanError)
        ensures
            e.mark == mark,
            e.info == info,
    {
        ScanError { mark, info }
    }

    /// Creates an error at `mark` whose description is a copy of `info`.
    pub fn new_str(mark: Marker, info: &str) -> (e: ScanError)
        ensures
            e.mark == mark,
            e.info@ == info@,
    {
        ScanError { mark, info: info.to_owned() }
    }

    /// The place the error was found at.
    pub fn marker(&self) -> (m: &Marker)
        ensures
            *m == self.mark,
    {
        &self.mark
    }

    /// The description of the error.
    pub fn info(&self) -> (s: &str)
        ensures
            s@ == self.info@,
    {
        self.info.as_str()
    }
}

} // verus!
