//! One language over one text: from what the grammar scanned to the tree that
//! a session keeps.

use crate::boundary::{injections_sorted, spans_sorted, to_parse_result, wire_injections, wire_spans};
use crate::grammar::{ByteRange, Capture, Embedding, Grammar, Scan};
use crate::injection::{in_order, take_embeddings, taken};
use crate::layers::{layers_at, tiles, Layering};
use crate::offsets::units_total;
use crate::query::{candidates_of, collect_candidates, layer_candidates, resolved_layers, Candidate};
use crate::spans::{reads_flat, ByteSpan};
use crate::wire::{ParseError, ParseResult};
use vstd::prelude::*;
use vstd::string::StringSliceAdditionalSpecFns;

verus! {

/// A grammar with its three queries, as a plugin is configured with it.
pub struct HighlightConfig<G> {
    /// Identifier of the language.
    pub language_id: String,
    /// The compiled grammar.
    pub grammar: G,
    /// The highlight query. Empty where the language has no highlighting.
    pub highlights_query: String,
    /// The injection query. Empty where the language embeds no other.
    pub injections_query: String,
    /// The locals query. Empty where the language has no local scoping.
    pub locals_query: String,
    /// The languages that the grammar may embed.
    pub injection_languages: Vec<String>,
    /// The capture name given to a reference that resolves to a local definition.
    pub local_capture: String,
}

/// What one parse of a text leaves behind.
#[derive(Debug)]
pub struct Tree {
    /// The captures of the language itself, in byte offsets.
    pub layering: Layering,
    /// The embedded ranges that were taken, in byte offsets.
    pub embeddings: Vec<Embedding>,
    /// The same as a message of the wire protocol.
    pub result: ParseResult,
}

/// The capture name that a reference to a local variable gets where the
/// configuration names no other.
pub open spec fn local_variable() -> Seq<char> {
    "variable.local"@
}

impl<G: Grammar> HighlightConfig<G> {
    /// The configuration of the language `language_id` with its grammar and
    /// its three queries. It embeds no language by declaration, and a
    /// reference to a local variable is captured as `variable.local`.
    pub fn new(
        language_id: &str,
        grammar: G,
        highlights_query: &str,
        injections_query: &str,
        locals_query: &str,
    ) -> (config: Self)
        ensures
            config.language_id@ == language_id@,
            config.grammar == grammar,
            config.highlights_query@ == highlights_query@,
            config.injections_query@ == injections_query@,
            config.locals_query@ == locals_query@,
            config.injection_languages@ == Seq::<String>::empty(),
            config.local_capture@ == local_variable(),
    {
        HighlightConfig {
            language_id: language_id.to_owned(),
            grammar,
            highlights_query: highlights_query.to_owned(),
            injections_query: injections_query.to_owned(),
            locals_query: locals_query.to_owned(),
            injection_languages: Vec::new(),
            local_capture: "variable.local".to_owned(),
        }
    }

    /// The candidates that a scan gives under this configuration: the captures
    /// of the highlight query and the resolved references of the locals query,
    /// each only where its query is not empty.
    pub open spec fn candidates(&self, bytes: Seq<u8>, scan: Scan) -> Seq<Candidate> {
        candidates_of(
            bytes,
            if self.highlights_query@.len() > 0 {
                scan.captures@
            } else {
                Seq::empty()
            },
            scan.scopes@,
            scan.definitions@,
            if self.locals_query@.len() > 0 {
                scan.references@
            } else {
                Seq::empty()
            },
            self.local_capture,
        )
    }

    /// The embeddings that are taken from a scan of `len` bytes under this
    /// configuration: none where the injection query is empty.
    pub open spec fn embeddings(&self, scan: Scan, len: int) -> Seq<Embedding> {
        if self.injections_query@.len() > 0 {
            taken(scan.embeddings@, len)
        } else {
            Seq::empty()
        }
    }

    /// `tree` is what the scan `scan` of `text` comes to under this configuration.
    pub open spec fn grows(&self, text: Seq<u8>, scan: Scan, tree: Tree) -> bool {
        &&& tree.layering.spec_len() == text.len()
        &&& tiles(tree.layering@)
        &&& forall|p: int|
            layers_at(tree.layering@, p) == resolved_layers(
                self.candidates(text, scan),
                text.len() as int,
                p,
            )
        &&& tree.embeddings@ == self.embeddings(scan, text.len() as int)
        &&& in_order(tree.embeddings@, text.len() as int)
        &&& spans_sorted(tree.result.spans@, units_total(text) as int)
        &&& injections_sorted(tree.result.injections@, units_total(text) as int)
        &&& exists|flat: Seq<ByteSpan>| #[trigger]
            reads_flat(tree.layering@, flat) && tree.result.spans@ == wire_spans(text, flat)
        &&& tree.result.injections@ == wire_injections(text, tree.embeddings@)
    }

    /// The grammar of this configuration, asked with a text of the bytes
    /// `bytes` and with the three queries of the configuration, may answer
    /// `scanned`.
    pub open spec fn admits(&self, bytes: Seq<u8>, scanned: Result<Scan, ParseError>) -> bool {
        exists|text: &str, highlights: &str, injections: &str, locals: &str|
            #![trigger call_ensures(G::scan, (&self.grammar, text, highlights, injections, locals), scanned)]
            {
                &&& text.spec_bytes() == bytes
                &&& highlights@ == self.highlights_query@
                &&& injections@ == self.injections_query@
                &&& locals@ == self.locals_query@
                &&& call_ensures(
                    G::scan,
                    (&self.grammar, text, highlights, injections, locals),
                    scanned,
                )
            }
    }

    /// `tree` is what a parse of a text of the bytes `bytes` may leave behind:
    /// the tree that comes of some scan with which the grammar may answer.
    pub open spec fn parses_to(&self, bytes: Seq<u8>, tree: Tree) -> bool {
        exists|scan: Scan| #[trigger]
            self.admits(bytes, Ok(scan)) && self.grows(bytes, scan, tree)
    }

    /// Builds the tree for `text` from what the grammar scanned in it.
    ///
    /// Fails only where the text is longer than the 32-bit offsets of the wire
    /// protocol can address.
    pub fn assemble(&self, text: &str, scan: &Scan) -> (tree: Result<Tree, ParseError>)
        ensures
            tree is Ok <==> units_total(text.spec_bytes()) <= u32::MAX,
            tree matches Ok(t) ==> self.grows(text.spec_bytes(), *scan, t),
    {
        let bytes = text.as_bytes();
        let no_captures: Vec<Capture> = Vec::new();
        let no_references: Vec<ByteRange> = Vec::new();
        let captures = if self.highlights_query.as_str().is_empty() {
            &no_captures
        } else {
            &scan.captures
        };
        let references = if self.locals_query.as_str().is_empty() {
            &no_references
        } else {
            &scan.references
        };
        proof {
            assert(no_captures@ =~= Seq::<Capture>::empty());
            assert(no_references@ =~= Seq::<ByteRange>::empty());
        }
        let candidates = collect_candidates(
            bytes,
            captures,
            &scan.scopes,
            &scan.definitions,
            references,
            &self.local_capture,
        );
        let layering = layer_candidates(&candidates, bytes.len());
        let embeddings = if self.injections_query.as_str().is_empty() {
            let none: Vec<Embedding> = Vec::new();
            proof {
                assert(none@ =~= Seq::<Embedding>::empty());
            }
            none
        } else {
            take_embeddings(&scan.embeddings, bytes.len())
        };
        match to_parse_result(text, &layering, &embeddings) {
            Some(result) => {
                let tree = Tree { layering, embeddings, result };
                proof {
                    let bytes = text.spec_bytes();
                    let flat = choose|flat: Seq<ByteSpan>| #[trigger]
                        reads_flat(tree.layering@, flat) && tree.result.spans@ == wire_spans(
                            bytes,
                            flat,
                        );
                    assert(reads_flat(tree.layering@, flat));
                }
                Ok(tree)
            },
            None => Err(ParseError::new("the text is longer than 32-bit offsets can address")),
        }
    }
}

} // verus!
