use vstd::prelude::*;

verus! {

/// An inclusive range of characters in a character class.
#[derive(Clone, Copy, Debug, PartialEq, Eq)]
pub struct ClassRange {
    pub start: char,
    pub end: char,
}


/// The kind of a zero-width assertion in a syntax tree.
#[derive(Clone, Copy, Debug, PartialEq, Eq)]
pub enum LookKind {
    /// Start of the input (`^`).
    Start,
    /// End of the input (`$`).
    End,
    /// Any other assertion (word boundaries, line anchors and the like).
    Other,
}

/// A parsed regular expression.
#[derive(Debug, PartialEq, Eq)]
pub enum Node {
    /// The empty pattern.
    Empty,
    /// A literal, as the bytes of its text.
    Literal(Vec<u8>),
    /// A character class, as ranges sorted and merged by the parser.
    Class(Vec<ClassRange>),
    /// A zero-width assertion.
    Look(LookKind),
    /// `sub` repeated between `min` and `max` times; no `max` means unbounded.
    Repetition { min: u32, max: Option<u32>, sub: Box<Node> },
    /// A group; it only bounds the scope of repetition and alternation.
    Capture(Box<Node>),
    /// The children in sequence.
    Concat(Vec<Node>),
    /// One of the children.
    Alternation(Vec<Node>),
}

} // verus!
