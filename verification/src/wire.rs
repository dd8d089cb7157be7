//! Messages exchanged between the host and a grammar plugin.
//!
//! Every offset in these messages counts UTF-16 code units, so that a host
//! written against a UTF-16 string type can slice its own text with them.

use vstd::prelude::*;
use vstd::std_specs::cmp::PartialEqSpecImpl;
use vstd::string::StringExecFns;

verus! {

/// Version of the message shapes below. Host and plugin must agree on it exactly.
pub const WIRE_VERSION: u32 = 1;

/// A highlighted range of text and the capture name it carries.
#[derive(Debug, Eq)]
pub struct Span {
    /// First UTF-16 code unit of the range.
    pub start: u32,
    /// One past the last UTF-16 code unit of the range.
    pub end: u32,
    /// The capture name, such as `keyword` or `string`.
    pub capture: String,
}

/// A range of the text that is written in another language.
#[derive(Debug, Eq)]
pub struct Injection {
    /// First UTF-16 code unit of the range.
    pub start: u32,
    /// One past the last UTF-16 code unit of the range.
    pub end: u32,
    /// Identifier of the language to highlight the range with.
    pub language: String,
    /// Whether the captures of the surrounding language stay in force inside the range.
    pub include_children: bool,
}

/// What one parse of a session's text produced.
#[derive(Debug, Eq)]
pub struct ParseResult {
    /// The highlighted ranges, in text order.
    pub spans: Vec<Span>,
    /// The ranges handed over to other languages, in text order.
    pub injections: Vec<Injection>,
}

/// One modification of a text, in the byte, row and column terms that
/// incremental parsing works with.
#[derive(Debug, Clone, Copy, PartialEq, Eq, Structural)]
pub struct Edit {
    pub start_byte: u32,
    pub old_end_byte: u32,
    pub new_end_byte: u32,
    pub start_row: u32,
    pub start_col: u32,
    pub old_end_row: u32,
    pub old_end_col: u32,
    pub new_end_row: u32,
    pub new_end_col: u32,
}

/// Why a parse produced no result.
#[derive(Debug, Eq)]
pub struct ParseError {
    /// A description meant for a human reader.
    pub message: String,
}

/// Two spans are the same when they cover the same range under the same capture name.
pub open spec fn same_span(a: Span, b: Span) -> bool {
    &&& a.start == b.start
    &&& a.end == b.end
    &&& a.capture@ == b.capture@
}

/// Two injections are the same when all four of their fields agree.
pub open spec fn same_injection(a: Injection, b: Injection) -> bool {
    &&& a.start == b.start
    &&& a.end == b.end
    &&& a.language@ == b.language@
    &&& a.include_children == b.include_children
}

impl Clone for Span {
    fn clone(&self) -> (copy: Self)
        ensures
            copy == *self,
    {
        Span { start: self.start, end: self.end, capture: self.capture.clone() }
    }
}

impl Clone for Injection {
    fn clone(&self) -> (copy: Self)
        ensures
            copy == *self,
    {
        Injection {
            start: self.start,
            end: self.end,
            language: self.language.clone(),
            include_children: self.include_children,
        }
    }
}

impl Clone for ParseError {
    fn clone(&self) -> (copy: Self)
        ensures
            copy == *self,
    {
        ParseError { message: self.message.clone() }
    }
}

/// A parse result as a pair of sequences.
pub struct ParseResultView {
    pub spans: Seq<Span>,
    pub injections: Seq<Injection>,
}

impl View for ParseResult {
    type V = ParseResultView;

    open spec fn view(&self) -> ParseResultView {
        ParseResultView { spans: self.spans@, injections: self.injections@ }
    }
}

impl Clone for ParseResult {
    fn clone(&self) -> (copy: Self)
        ensures
            copy@ == self@,
    {
        let mut spans: Vec<Span> = Vec::new();
        let mut i: usize = 0;
        while i < self.spans.len()
            invariant
                i <= self.spans.len(),
                spans@ == self.spans@.take(i as int),
            decreases self.spans.len() - i,
        {
            spans.push(self.spans[i].clone());
            proof {
                assert(self.spans@.take(i + 1) =~= self.spans@.take(i as int).push(self.spans@[i as int]));
            }
            i += 1;
        }
        let mut injections: Vec<Injection> = Vec::new();
        let mut k: usize = 0;
        while k < self.injections.len()
            invariant
                k <= self.injections.len(),
                injections@ == self.injections@.take(k as int),
            decreases self.injections.len() - k,
        {
            injections.push(self.injections[k].clone());
            proof {
                assert(self.injections@.take(k + 1) =~= self.injections@.take(k as int).push(
                    self.injections@[k as int],
                ));
            }
            k += 1;
        }
        proof {
            assert(self.spans@.take(self.spans.len() as int) =~= self.spans@);
            assert(self.injections@.take(self.injections.len() as int) =~= self.injections@);
        }
        ParseResult { spans, injections }
    }
}

impl PartialEq for Span {
    fn eq(&self, other: &Self) -> (equal: bool) {
        self.start == other.start && self.end == other.end && self.capture == other.capture
    }
}

impl PartialEqSpecImpl for Span {
    open spec fn obeys_eq_spec() -> bool {
        true
    }

    open spec fn eq_spec(&self, other: &Self) -> bool {
        same_span(*self, *other)
    }
}

impl PartialEq for Injection {
    fn eq(&self, other: &Self) -> (equal: bool) {
        self.start == other.start && self.end == other.end && self.language == other.language
            && self.include_children == other.include_children
    }
}

impl PartialEqSpecImpl for Injection {
    open spec fn obeys_eq_spec() -> bool {
        true
    }

    open spec fn eq_spec(&self, other: &Self) -> bool {
        same_injection(*self, *other)
    }
}

impl PartialEq for ParseError {
    fn eq(&self, other: &Self) -> (equal: bool) {
        self.message == other.message
    }
}

impl PartialEqSpecImpl for ParseError {
    open spec fn obeys_eq_spec() -> bool {
        true
    }

    open spec fn eq_spec(&self, other: &Self) -> bool {
        self.message@ == other.message@
    }
}

/// Two span lists agree when they have the same length and agree position by position.
pub open spec fn spans_agree(a: Seq<Span>, b: Seq<Span>) -> bool {
    &&& a.len() == b.len()
    &&& forall|i: int| 0 <= i < a.len() ==> same_span(#[trigger] a[i], b[i])
}

/// Two injection lists agree when they have the same length and agree position by position.
pub open spec fn injections_agree(a: Seq<Injection>, b: Seq<Injection>) -> bool {
    &&& a.len() == b.len()
    &&& forall|i: int| 0 <= i < a.len() ==> same_injection(#[trigger] a[i], b[i])
}

fn spans_equal(a: &Vec<Span>, b: &Vec<Span>) -> (equal: bool)
    ensures
        equal == spans_agree(a@, b@),
{
    if a.len() != b.len() {
        return false;
    }
    let mut i: usize = 0;
    while i < a.len()
        invariant
            i <= a.len(),
            a.len() == b.len(),
            forall|k: int| 0 <= k < i ==> same_span(#[trigger] a@[k], b@[k]),
        decreases a.len() - i,
    {
        if !(a[i] == b[i]) {
            return false;
        }
        i += 1;
    }
    true
}

fn injections_equal(a: &Vec<Injection>, b: &Vec<Injection>) -> (equal: bool)
    ensures
        equal == injections_agree(a@, b@),
{
    if a.len() != b.len() {
        return false;
    }
    let mut i: usize = 0;
    while i < a.len()
        invariant
            i <= a.len(),
            a.len() == b.len(),
            forall|k: int| 0 <= k < i ==> same_injection(#[trigger] a@[k], b@[k]),
        decreases a.len() - i,
    {
        if !(a[i] == b[i]) {
            return false;
        }
        i += 1;
    }
    true
}

impl PartialEq for ParseResult {
    fn eq(&self, other: &Self) -> (equal: bool) {
        spans_equal(&self.spans, &other.spans) && injections_equal(
            &self.injections,
            &other.injections,
        )
    }
}

impl PartialEqSpecImpl for ParseResult {
    open spec fn obeys_eq_spec() -> bool {
        true
    }

    open spec fn eq_spec(&self, other: &Self) -> bool {
        &&& spans_agree(self.spans@, other.spans@)
        &&& injections_agree(self.injections@, other.injections@)
    }
}

impl ParseResult {
    /// A result with no span and no injection.
    pub fn empty() -> (result: Self)
        ensures
            result.spans@ == Seq::<Span>::empty(),
            result.injections@ == Seq::<Injection>::empty(),
    {
        Self { spans: Vec::new(), injections: Vec::new() }
    }
}

impl ParseError {
    /// The error in the words in which a plugin reports it to its host.
    pub fn report(&self) -> (text: String)
        ensures
            text@ == "parse error: "@ + self.message@,
    {
        String::from_str("parse error: ").concat(self.message.as_str())
    }

    /// An error that carries `message`.
    pub fn new(message: &str) -> (error: Self)
        ensures
            error.message@ == message@,
    {
        Self { message: message.to_owned() }
    }
}

/// Whether a plugin built for `version` may be loaded: only an exact match is accepted.
pub fn is_version_compatible(version: u32) -> (compatible: bool)
    ensures
        compatible <==> version == WIRE_VERSION,
{
    version == WIRE_VERSION
}

} // verus!
