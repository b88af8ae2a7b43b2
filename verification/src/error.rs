use vstd::prelude::*;

verus! {

/// Error for malformed pattern or platform text.  Carries the raw input and
/// the span of the offending characters so a caller can render a
/// source-annotated diagnostic.
#[derive(Debug)]
pub struct ParseError {
    /// Human-readable description of what was expected.
    pub message: String,
    /// The full text that was being parsed.
    pub input: String,
    /// First character position (in characters, not bytes) of the bad span.
    pub span_start: usize,
    /// One past the last character position of the bad span.
    pub span_end: usize,
}

impl ParseError {
    pub fn new(message: String, input: String, span_start: usize, span_end: usize) -> (r: Self)
        ensures
            r.message == message,
            r.input == input,
            r.span_start == span_start,
            r.span_end == span_end,
    {
        ParseError { message, input, span_start, span_end }
    }
}

/// Error for dependency-graph misuse: both variants indicate a resolver bug
/// and callers must abort the run on seeing one.
#[derive(Debug, PartialEq, Eq)]
pub enum GraphError {
    /// The payload given as parent is not in the graph.
    ParentNotFound,
    /// The payload given as child is not in the graph.
    ChildNotFound,
    /// Linking the edge closed a cycle; the nodes walked are recorded.
    /// The edge stays linked, so the graph must be discarded.
    CycleDetected(Vec<usize>),
}

} // verus!
