//! Where the engine's results leave it: byte offsets become UTF-16 offsets,
//! once, and layered highlighting becomes the flat spans of the wire protocol.

use crate::grammar::Embedding;
use crate::injection::{clear_of, fits, in_order, is_in_order};
use crate::layers::Layering;
use crate::offsets::{advance, lemma_units_bounded, lemma_units_monotone, units_before, units_total, utf16_len};
use crate::spans::{apart, flat_spans, reads_flat, sorted_apart, ByteSpan};
use crate::wire::{Injection, ParseResult, Span};
use vstd::prelude::*;
use vstd::string::StringSliceAdditionalSpecFns;

verus! {

/// The byte range from `start` to `end` holds at least one UTF-16 code unit.
pub open spec fn survives(bytes: Seq<u8>, start: int, end: int) -> bool {
    units_before(bytes, start) < units_before(bytes, end)
}

/// The span of the wire protocol that stands for a byte span of `bytes`.
pub open spec fn wire_span(bytes: Seq<u8>, s: ByteSpan) -> Span {
    Span {
        start: units_before(bytes, s.start as int) as u32,
        end: units_before(bytes, s.end as int) as u32,
        capture: s.capture,
    }
}

/// The spans of the wire protocol that stand for the byte spans `spans`: each
/// one converted, without those that hold no code unit.
pub open spec fn wire_spans(bytes: Seq<u8>, spans: Seq<ByteSpan>) -> Seq<Span> {
    spans.filter(|s: ByteSpan| survives(bytes, s.start as int, s.end as int)).map_values(
        |s: ByteSpan| wire_span(bytes, s),
    )
}

/// The injection of the wire protocol that stands for an embedding in `bytes`.
pub open spec fn wire_injection(bytes: Seq<u8>, e: Embedding) -> Injection {
    Injection {
        start: units_before(bytes, e.start as int) as u32,
        end: units_before(bytes, e.end as int) as u32,
        language: e.language,
        include_children: e.include_children,
    }
}

/// The injections of the wire protocol that stand for the embeddings: each one
/// converted, without those that hold no code unit.
pub open spec fn wire_injections(bytes: Seq<u8>, embeddings: Seq<Embedding>) -> Seq<Injection> {
    embeddings.filter(|e: Embedding| survives(bytes, e.start as int, e.end as int)).map_values(
        |e: Embedding| wire_injection(bytes, e),
    )
}

/// Span `j` ends no later than span `k` starts.
pub open spec fn span_apart(spans: Seq<Span>, j: int, k: int) -> bool {
    spans[j].end <= spans[k].start
}

/// The spans are non-empty, lie within a text of `len` code units, are sorted
/// by their start and do not overlap.
pub open spec fn spans_sorted(spans: Seq<Span>, len: int) -> bool {
    &&& forall|k: int| 0 <= k < spans.len() ==> (#[trigger] spans[k]).start < spans[k].end <= len
    &&& forall|j: int, k: int| 0 <= j < k < spans.len() ==> #[trigger] span_apart(spans, j, k)
}

/// Injection `j` ends no later than injection `k` starts.
pub open spec fn injection_apart(injections: Seq<Injection>, j: int, k: int) -> bool {
    injections[j].end <= injections[k].start
}

/// The injections are non-empty, lie within a text of `len` code units, are
/// sorted by their start and do not overlap.
pub open spec fn injections_sorted(injections: Seq<Injection>, len: int) -> bool {
    &&& forall|k: int|
        0 <= k < injections.len() ==> (#[trigger] injections[k]).start < injections[k].end <= len
    &&& forall|j: int, k: int|
        0 <= j < k < injections.len() ==> #[trigger] injection_apart(injections, j, k)
}

/// Converts byte spans that are sorted and apart into spans of the wire protocol.
fn convert_spans(bytes: &[u8], spans: &Vec<ByteSpan>) -> (out: Vec<Span>)
    requires
        sorted_apart(spans@, bytes@.len() as int),
        units_total(bytes@) <= u32::MAX,
    ensures
        out@ == wire_spans(bytes@, spans@),
        spans_sorted(out@, units_total(bytes@) as int),
{
    let ghost keep = |s: ByteSpan| survives(bytes@, s.start as int, s.end as int);
    let ghost turn = |s: ByteSpan| wire_span(bytes@, s);
    let mut out: Vec<Span> = Vec::new();
    let mut at: usize = 0;
    let mut count: u32 = 0;
    let mut i: usize = 0;
    proof {
        assert(spans@.take(0).filter(keep) =~= Seq::<ByteSpan>::empty()) by {
            reveal(Seq::filter);
        }
    }
    while i < spans.len()
        invariant
            i <= spans.len(),
            sorted_apart(spans@, bytes@.len() as int),
            units_total(bytes@) <= u32::MAX,
            keep == (|s: ByteSpan| survives(bytes@, s.start as int, s.end as int)),
            turn == (|s: ByteSpan| wire_span(bytes@, s)),
            at <= bytes@.len(),
            count == units_before(bytes@, at as int),
            forall|k: int| i <= k < spans.len() ==> at <= (#[trigger] spans@[k]).start,
            out@ == spans@.take(i as int).filter(keep).map_values(turn),
            spans_sorted(out@, units_total(bytes@) as int),
            forall|k: int| 0 <= k < out.len() ==> (#[trigger] out@[k]).end <= count,
        decreases spans.len() - i,
    {
        let s = &spans[i];
        proof {
            assert(spans@.take(i + 1) =~= spans@.take(i as int).push(spans@[i as int]));
            spans@.take(i as int).lemma_filter_push(spans@[i as int], keep);
            assert forall|k: int| i < k < spans.len() implies s.end <= (#[trigger] spans@[k]).start by {
                assert(apart(spans@, i as int, k));
            }
            lemma_units_bounded(bytes@, s.start as int);
            lemma_units_bounded(bytes@, s.end as int);
            lemma_units_monotone(bytes@, at as int, s.start as int);
            lemma_units_monotone(bytes@, s.start as int, s.end as int);
        }
        let ghost before = out@;
        let start = advance(bytes, at, count, s.start).unwrap();
        let end = advance(bytes, s.start, start, s.end).unwrap();
        if start < end {
            out.push(Span { start, end, capture: s.capture.clone() });
            proof {
                let so_far = spans@.take(i as int).filter(keep);
                assert(so_far.push(*s).map_values(turn) =~= so_far.map_values(turn).push(turn(*s)));
                assert(out@[out.len() - 1] == turn(*s));
                assert forall|j: int, k: int| 0 <= j < k < out.len() implies #[trigger] span_apart(
                    out@,
                    j,
                    k,
                ) by {
                    if k < before.len() {
                        assert(span_apart(before, j, k));
                    } else {
                        assert(before[j].end <= count);
                    }
                }
                assert forall|k: int| 0 <= k < out.len() implies (#[trigger] out@[k]).start
                    < out@[k].end <= units_total(bytes@) by {
                    if k < before.len() {
                        assert(before[k].start < before[k].end);
                    }
                }
            }
        }
        proof {
            assert forall|k: int| 0 <= k < out.len() implies (#[trigger] out@[k]).end <= end by {
                if k < before.len() {
                    assert(before[k].end <= count);
                }
            }
        }
        at = s.end;
        count = end;
        i += 1;
    }
    proof {
        assert(spans@.take(spans.len() as int) =~= spans@);
    }
    out
}

/// Converts embeddings that lie in order into injections of the wire protocol.
fn convert_embeddings(bytes: &[u8], embeddings: &Vec<Embedding>) -> (out: Vec<Injection>)
    requires
        in_order(embeddings@, bytes@.len() as int),
        units_total(bytes@) <= u32::MAX,
    ensures
        out@ == wire_injections(bytes@, embeddings@),
        injections_sorted(out@, units_total(bytes@) as int),
{
    let ghost keep = |e: Embedding| survives(bytes@, e.start as int, e.end as int);
    let ghost turn = |e: Embedding| wire_injection(bytes@, e);
    let mut out: Vec<Injection> = Vec::new();
    let mut at: usize = 0;
    let mut count: u32 = 0;
    let mut i: usize = 0;
    proof {
        assert(embeddings@.take(0).filter(keep) =~= Seq::<Embedding>::empty()) by {
            reveal(Seq::filter);
        }
    }
    while i < embeddings.len()
        invariant
            i <= embeddings.len(),
            in_order(embeddings@, bytes@.len() as int),
            units_total(bytes@) <= u32::MAX,
            keep == (|e: Embedding| survives(bytes@, e.start as int, e.end as int)),
            turn == (|e: Embedding| wire_injection(bytes@, e)),
            at <= bytes@.len(),
            count == units_before(bytes@, at as int),
            forall|k: int| i <= k < embeddings.len() ==> at <= (#[trigger] embeddings@[k]).start,
            out@ == embeddings@.take(i as int).filter(keep).map_values(turn),
            injections_sorted(out@, units_total(bytes@) as int),
            forall|k: int| 0 <= k < out.len() ==> (#[trigger] out@[k]).end <= count,
        decreases embeddings.len() - i,
    {
        let e = &embeddings[i];
        proof {
            assert(embeddings@.take(i + 1) =~= embeddings@.take(i as int).push(embeddings@[i as int]));
            embeddings@.take(i as int).lemma_filter_push(embeddings@[i as int], keep);
            assert forall|k: int| i < k < embeddings.len() implies e.end <= (
            #[trigger] embeddings@[k]).start by {
                assert(clear_of(embeddings@, i as int, k));
            }
            assert(fits(embeddings@[i as int], 0, bytes@.len() as int));
            lemma_units_bounded(bytes@, e.start as int);
            lemma_units_bounded(bytes@, e.end as int);
            lemma_units_monotone(bytes@, at as int, e.start as int);
            lemma_units_monotone(bytes@, e.start as int, e.end as int);
        }
        let ghost before = out@;
        let start = advance(bytes, at, count, e.start).unwrap();
        let end = advance(bytes, e.start, start, e.end).unwrap();
        if start < end {
            out.push(
                Injection {
                    start,
                    end,
                    language: e.language.clone(),
                    include_children: e.include_children,
                },
            );
            proof {
                let so_far = embeddings@.take(i as int).filter(keep);
                assert(so_far.push(*e).map_values(turn) =~= so_far.map_values(turn).push(turn(*e)));
                assert(out@[out.len() - 1] == turn(*e));
                assert forall|j: int, k: int| 0 <= j < k < out.len() implies #[trigger] injection_apart(
                    out@,
                    j,
                    k,
                ) by {
                    if k < before.len() {
                        assert(injection_apart(before, j, k));
                    } else {
                        assert(before[j].end <= count);
                    }
                }
                assert forall|k: int| 0 <= k < out.len() implies (#[trigger] out@[k]).start
                    < out@[k].end <= units_total(bytes@) by {
                    if k < before.len() {
                        assert(before[k].start < before[k].end);
                    }
                }
            }
        }
        proof {
            assert forall|k: int| 0 <= k < out.len() implies (#[trigger] out@[k]).end <= end by {
                if k < before.len() {
                    assert(before[k].end <= count);
                }
            }
        }
        at = e.end;
        count = end;
        i += 1;
    }
    proof {
        assert(embeddings@.take(embeddings.len() as int) =~= embeddings@);
    }
    out
}

/// Whether the spans are sorted and apart within `len` bytes.
pub fn is_sorted_apart(spans: &Vec<ByteSpan>, len: usize) -> (sorted: bool)
    ensures
        sorted == sorted_apart(spans@, len as int),
{
    let mut reach: usize = 0;
    let mut i: usize = 0;
    let ghost mut holder: int = -1;
    while i < spans.len()
        invariant
            i <= spans.len(),
            sorted_apart(spans@.take(i as int), len as int),
            forall|k: int| 0 <= k < i ==> (#[trigger] spans@[k]).end <= reach,
            -1 <= holder < i,
            holder == -1 ==> reach == 0,
            holder >= 0 ==> spans@[holder].end == reach,
        decreases spans.len() - i,
    {
        let s = &spans[i];
        if !(reach <= s.start && s.start < s.end && s.end <= len) {
            proof {
                if sorted_apart(spans@, len as int) {
                    assert(spans@[i as int].start < spans@[i as int].end <= len);
                    if holder >= 0 {
                        assert(apart(spans@, holder, i as int));
                    }
                }
            }
            return false;
        }
        proof {
            let before = spans@.take(i as int);
            let now = spans@.take(i + 1);
            assert forall|j: int, k: int| 0 <= j < k < now.len() implies #[trigger] apart(now, j, k) by {
                if k < i {
                    assert(apart(before, j, k));
                } else {
                    assert(spans@[j].end <= reach);
                }
            }
            assert forall|k: int| 0 <= k < now.len() implies (#[trigger] now[k]).start < now[k].end
                <= len by {
                if k < i {
                    assert(before[k].start < before[k].end <= len);
                }
            }
            holder = i as int;
        }
        reach = s.end;
        i += 1;
    }
    proof {
        assert(spans@.take(spans.len() as int) =~= spans@);
    }
    true
}

/// The spans of the wire protocol that stand for the byte spans `spans` of the
/// text `bytes`. `None` where the spans are not sorted and apart within the
/// text, or the text is longer than 32-bit offsets can address.
pub fn spans_to_wire(bytes: &[u8], spans: &Vec<ByteSpan>) -> (out: Option<Vec<Span>>)
    ensures
        out is Some <==> sorted_apart(spans@, bytes@.len() as int) && units_total(bytes@)
            <= u32::MAX,
        out matches Some(o) ==> o@ == wire_spans(bytes@, spans@) && spans_sorted(
            o@,
            units_total(bytes@) as int,
        ),
{
    if !is_sorted_apart(spans, bytes.len()) || utf16_len(bytes).is_none() {
        return None;
    }
    Some(convert_spans(bytes, spans))
}

/// The injections of the wire protocol that stand for the embeddings of the
/// text `bytes`. `None` where the embeddings do not lie in order within the
/// text, or the text is longer than 32-bit offsets can address.
pub fn embeddings_to_wire(bytes: &[u8], embeddings: &Vec<Embedding>) -> (out: Option<
    Vec<Injection>,
>)
    ensures
        out is Some <==> in_order(embeddings@, bytes@.len() as int) && units_total(bytes@)
            <= u32::MAX,
        out matches Some(o) ==> o@ == wire_injections(bytes@, embeddings@) && injections_sorted(
            o@,
            units_total(bytes@) as int,
        ),
{
    if !is_in_order(embeddings, bytes.len()) || utf16_len(bytes).is_none() {
        return None;
    }
    Some(convert_embeddings(bytes, embeddings))
}

/// The result of the wire protocol that stands for a layering of `text` and
/// the embeddings taken in it.
///
/// The spans are the flat reading of the layering, the injections are the
/// embeddings, both with UTF-16 offsets. `None` is returned where the layering
/// covers another length than the text, where the embeddings do not lie in
/// order within it, or where the text is longer than 32-bit offsets can address.
pub fn to_parse_result(text: &str, layering: &Layering, embeddings: &Vec<Embedding>) -> (result:
    Option<ParseResult>)
    ensures
        result is Some <==> {
            &&& layering.spec_len() == text.spec_bytes().len()
            &&& in_order(embeddings@, text.spec_bytes().len() as int)
            &&& units_total(text.spec_bytes()) <= u32::MAX
        },
        result matches Some(r) ==> {
            &&& spans_sorted(r.spans@, units_total(text.spec_bytes()) as int)
            &&& injections_sorted(r.injections@, units_total(text.spec_bytes()) as int)
            &&& exists|flat: Seq<ByteSpan>| #[trigger]
                reads_flat(layering@, flat) && r.spans@ == wire_spans(text.spec_bytes(), flat)
            &&& r.injections@ == wire_injections(text.spec_bytes(), embeddings@)
        },
{
    let bytes = text.as_bytes();
    if layering.len() != bytes.len() || !is_in_order(embeddings, bytes.len()) {
        return None;
    }
    if utf16_len(bytes).is_none() {
        return None;
    }
    let flat = flat_spans(layering);
    let spans = convert_spans(bytes, &flat);
    let injections = convert_embeddings(bytes, embeddings);
    proof {
        assert(reads_flat(layering@, flat@));
    }
    Some(ParseResult { spans, injections })
}

/// Spans that are sorted and apart rise strictly by their start, and each one
/// ends before the next one starts.
pub proof fn law_spans_rise(spans: Seq<Span>, len: int, j: int, k: int)
    requires
        spans_sorted(spans, len),
        0 <= j < k < spans.len(),
    ensures
        0 <= spans[j].start < spans[j].end <= spans[k].start < spans[k].end <= len,
{
    assert(span_apart(spans, j, k));
}

} // verus!
