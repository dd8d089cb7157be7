//! What a compiled grammar hands to the engine.
//!
//! The engine does not parse. A grammar parses a text, runs its highlight,
//! injection and local-variable queries over the tree, and reports what they
//! matched as plain byte ranges. Everything the engine decides, it decides on
//! these values, and it trusts none of them to be in order or in range.

use crate::wire::ParseError;
use vstd::prelude::*;

verus! {

/// A range of bytes of the text.
#[derive(Debug, Clone, Copy, PartialEq, Eq, Structural)]
pub struct ByteRange {
    /// First byte of the range.
    pub start: usize,
    /// One past the last byte of the range.
    pub end: usize,
}

/// One capture of the highlight query.
#[derive(Debug)]
pub struct Capture {
    /// First byte of the captured node.
    pub start: usize,
    /// One past the last byte of the captured node.
    pub end: usize,
    /// Position of the matching pattern in the query, counted in declaration order.
    pub pattern: u32,
    /// Length in bytes of the whole match of that pattern.
    pub match_len: usize,
    /// The capture name, as the query spells it.
    pub capture: String,
}

/// One match of the injection query: a range to be highlighted as another language.
#[derive(Debug)]
pub struct Embedding {
    /// First byte of the embedded text.
    pub start: usize,
    /// One past the last byte of the embedded text.
    pub end: usize,
    /// Identifier of the embedded language.
    pub language: String,
    /// Whether the captures of the surrounding language stay in force inside the range.
    pub include_children: bool,
}

/// Everything that the three queries of a grammar matched in one text.
#[derive(Debug)]
pub struct Scan {
    /// The captures of the highlight query.
    pub captures: Vec<Capture>,
    /// The matches of the injection query.
    pub embeddings: Vec<Embedding>,
    /// The nodes that the locals query marks as lexical scopes.
    pub scopes: Vec<ByteRange>,
    /// The nodes that the locals query marks as definitions of a variable.
    pub definitions: Vec<ByteRange>,
    /// The nodes that the locals query marks as references to a variable.
    pub references: Vec<ByteRange>,
}

/// A compiled grammar: the parser of one language together with the machinery
/// that runs queries over what it parsed.
///
/// Nothing is assumed of an implementation. The engine checks every range that
/// a scan reports before it uses it.
pub trait Grammar {
    /// Parses `text` and runs the three queries over the tree. A query that is
    /// the empty string matches nothing. Fails where the scanner cannot tokenize
    /// the text.
    fn scan(&self, text: &str, highlights: &str, injections: &str, locals: &str) -> Result<
        Scan,
        ParseError,
    >;
}

/// The grammar of plain text: it scans any text and finds nothing in it.
#[derive(Debug, Clone, Copy, PartialEq, Eq, Structural)]
pub struct PlainText;

impl Grammar for PlainText {
    fn scan(&self, text: &str, highlights: &str, injections: &str, locals: &str) -> (scan: Result<
        Scan,
        ParseError,
    >)
        ensures
            scan matches Ok(s) && s.captures@.len() == 0 && s.embeddings@.len() == 0
                && s.scopes@.len() == 0 && s.definitions@.len() == 0 && s.references@.len() == 0,
    {
        Ok(Scan::empty())
    }
}

impl Scan {
    /// The scan of a text in which no query matched anything.
    pub fn empty() -> (scan: Scan)
        ensures
            scan.captures@.len() == 0,
            scan.embeddings@.len() == 0,
            scan.scopes@.len() == 0,
            scan.definitions@.len() == 0,
            scan.references@.len() == 0,
    {
        Scan {
            captures: Vec::new(),
            embeddings: Vec::new(),
            scopes: Vec::new(),
            definitions: Vec::new(),
            references: Vec::new(),
        }
    }
}

} // verus!
