//! An incremental block-structure parser for a Markdown-like document
//! language: given raw source text, it produces a tree of nested block
//! containers (block quotes, ordered/unordered lists, list items) and leaf
//! blocks (headings, paragraphs, blank-line runs), with byte-accurate source
//! spans on every node.

use vstd::prelude::*;

pub mod arena;
pub mod engine;
pub mod render;
pub mod block_quote;
pub mod container;
pub mod empty;
pub mod heading;
pub mod leaf;
pub mod list_item;
pub mod node;
pub mod ordered_list;
pub mod paragraph;
pub mod token;
pub mod unordered_list;

pub use engine::parse;
pub use engine::parse_bytes;
pub use node::Kind;
pub use node::Node;

verus! {

/// A half-open `[start, end)` byte-offset range into the source.
#[derive(Debug, Copy, Clone, PartialEq, Eq, Structural)]
pub struct Span {
    pub start: usize,
    pub end: usize,
}

impl Span {
    pub fn new(start: usize, end: usize) -> (s: Span)
        ensures
            s.start == start,
            s.end == end,
    {
        Span { start, end }
    }

    /// Combine two spans into one covering their union: the earliest start,
    /// the latest end.
    pub fn merge(self, other: Span) -> (s: Span)
        ensures
            s.start == if self.start <= other.start { self.start } else { other.start },
            s.end == if self.end >= other.end { self.end } else { other.end },
    {
        let start = if self.start <= other.start { self.start } else { other.start };
        let end = if self.end >= other.end { self.end } else { other.end };
        Span { start, end }
    }
}

} // verus!
