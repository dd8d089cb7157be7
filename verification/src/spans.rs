//! The flat reading of a layering: one capture name per stretch of text.
//!
//! A consumer that does not follow nesting sees, at every byte, only the
//! innermost capture in force there. The spans of a layering are the maximal
//! stretches of text that show one name.

use crate::layers::{holds, layers_at, lemma_layers_at, lemma_tiles_cover, lemma_within_extent, tiles, top_at, extent, Layering, Segment};
use vstd::prelude::*;

verus! {

/// A stretch of bytes that shows one capture name.
#[derive(Debug)]
pub struct ByteSpan {
    /// First byte of the stretch.
    pub start: usize,
    /// One past the last byte of the stretch.
    pub end: usize,
    /// The capture name that shows.
    pub capture: String,
}

/// Whether byte position `p` lies in span `k`.
pub open spec fn within(spans: Seq<ByteSpan>, k: int, p: int) -> bool {
    0 <= k < spans.len() && spans[k].start <= p < spans[k].end
}

/// Span `j` ends no later than span `k` starts.
pub open spec fn apart(spans: Seq<ByteSpan>, j: int, k: int) -> bool {
    spans[j].end <= spans[k].start
}

/// The spans are non-empty, lie below `len`, and follow each other in text
/// order without overlap.
pub open spec fn sorted_apart(spans: Seq<ByteSpan>, len: int) -> bool {
    &&& forall|k: int| 0 <= k < spans.len() ==> (#[trigger] spans[k]).start < spans[k].end <= len
    &&& forall|j: int, k: int| 0 <= j < k < spans.len() ==> #[trigger] apart(spans, j, k)
}

/// The name that shows at byte position `p` is `name`.
pub open spec fn shows(segments: Seq<Segment>, p: int, name: Seq<char>) -> bool {
    top_at(segments, p) matches Some(top) && top@ == name
}

/// Span `k` and the one after it touch and show the same name.
pub open spec fn mergeable(spans: Seq<ByteSpan>, k: int) -> bool {
    spans[k].end == spans[k + 1].start && spans[k].capture@ == spans[k + 1].capture@
}

/// `spans` is the flat reading of `segments`:
/// the spans are sorted and apart; each shows its name at every byte of it;
/// every byte that shows a name lies in a span; and no two neighbours could be
/// one span.
pub open spec fn reads_flat(segments: Seq<Segment>, spans: Seq<ByteSpan>) -> bool {
    &&& sorted_apart(spans, extent(segments))
    &&& forall|k: int, p: int| #[trigger] within(spans, k, p) ==> shows(segments, p, spans[k].capture@)
    &&& forall|p: int|
        (#[trigger] top_at(segments, p)) is Some ==> exists|k: int| within(spans, k, p)
    &&& forall|k: int| 0 <= k < spans.len() - 1 ==> !#[trigger] mergeable(spans, k)
}

/// A prefix of a tiling is a tiling, and positions in it keep their stacks.
proof fn lemma_prefix(segments: Seq<Segment>, count: int)
    requires
        tiles(segments),
        0 <= count <= segments.len(),
    ensures
        tiles(segments.take(count)),
        count > 0 ==> extent(segments.take(count)) == segments[count - 1].end,
        forall|p: int|
            p < extent(segments.take(count)) ==> layers_at(segments.take(count), p) == layers_at(
                segments,
                p,
            ),
{
    let front = segments.take(count);
    assert forall|k: int| 0 <= k < front.len() - 1 implies #[trigger] crate::layers::abuts(front, k) by {
        assert(crate::layers::abuts(segments, k));
    }
    assert forall|j: int, k: int| 0 <= j < k < front.len() implies #[trigger] crate::layers::precedes(
        front,
        j,
        k,
    ) by {
        assert(crate::layers::precedes(segments, j, k));
    }
    assert forall|k: int| 0 <= k < front.len() implies (#[trigger] front[k]).start < front[k].end by {
        assert(front[k] == segments[k]);
    }
    if count > 0 {
        assert(front[0] == segments[0]);
    }
    assert forall|p: int| p < extent(front) implies layers_at(front, p) == layers_at(segments, p) by {
        if 0 <= p {
            lemma_tiles_cover(front, p);
            let k = choose|k: int| holds(front, k, p);
            assert(front[k] == segments[k]);
            assert(holds(segments, k, p));
            lemma_layers_at(front, k, p);
            lemma_layers_at(segments, k, p);
        } else {
            crate::layers::lemma_plain_outside(front, p);
            crate::layers::lemma_plain_outside(segments, p);
        }
    }
}

/// How the name that shows at `p` after one more segment follows from what
/// showed before it.
proof fn lemma_next_segment(segments: Seq<Segment>, i: int, p: int)
    requires
        tiles(segments),
        0 <= i < segments.len(),
    ensures
        extent(segments.take(i)) == segments[i].start,
        extent(segments.take(i + 1)) == segments[i].end,
        p < segments[i].start ==> top_at(segments.take(i + 1), p) == top_at(segments.take(i), p),
        segments[i].start <= p < segments[i].end ==> layers_at(segments.take(i + 1), p)
            == segments[i].layers@,
        segments[i].end <= p ==> top_at(segments.take(i + 1), p) is None,
        segments[i].start <= p ==> top_at(segments.take(i), p) is None,
{
    lemma_prefix(segments, i);
    lemma_prefix(segments, i + 1);
    if i > 0 {
        assert(crate::layers::abuts(segments, i - 1));
    }
    if segments[i].start <= p < segments[i].end {
        assert(holds(segments, i, p));
        lemma_layers_at(segments, i, p);
    }
    if p < segments[i].start {
        assert(extent(segments.take(i)) == segments[i].start);
        lemma_within_extent(segments, i);
        assert(layers_at(segments.take(i), p) == layers_at(segments, p));
        assert(layers_at(segments.take(i + 1), p) == layers_at(segments, p));
    }
    if segments[i].end <= p {
        crate::layers::lemma_plain_outside(segments.take(i + 1), p);
    }
    if segments[i].start <= p {
        crate::layers::lemma_plain_outside(segments.take(i), p);
    }
}

/// The flat reading of a layering.
pub fn flat_spans(layering: &Layering) -> (spans: Vec<ByteSpan>)
    ensures
        reads_flat(layering@, spans@),
{
    let segments = layering.segments();
    let mut spans: Vec<ByteSpan> = Vec::new();
    let mut i: usize = 0;
    proof {
        assert(segments@.take(0) =~= Seq::<Segment>::empty());
        assert forall|p: int| (#[trigger] top_at(segments@.take(0), p)) is None by {}
    }
    while i < segments.len()
        invariant
            i <= segments.len(),
            tiles(segments@),
            reads_flat(segments@.take(i as int), spans@),
        decreases segments.len() - i,
    {
        let segment = &segments[i];
        let ghost old_spans = spans@;
        let ghost before = segments@.take(i as int);
        let ghost after = segments@.take(i + 1);
        proof {
            lemma_next_segment(segments@, i as int, 0);
            lemma_within_extent(segments@, i as int);
        }
        if segment.layers.len() > 0 {
            let top = &segment.layers[segment.layers.len() - 1];
            let joins = spans.len() > 0 && spans[spans.len() - 1].end == segment.start
                && spans[spans.len() - 1].capture == *top;
            if joins {
                let last = spans.pop().unwrap();
                spans.push(ByteSpan { start: last.start, end: segment.end, capture: last.capture });
            } else {
                spans.push(ByteSpan { start: segment.start, end: segment.end, capture: top.clone() });
            }
            proof {
                let now = spans@;
                let n = now.len() - 1;
                assert(now.len() > 0);
                assert(now[n].end == segment.end);
                assert(now[n].capture@ == top@);
                assert(forall|k: int| 0 <= k < n ==> now[k] == old_spans[k]);
                assert(joins ==> old_spans.len() == n + 1 && now[n].start == old_spans[n].start);
                assert(!joins ==> old_spans.len() == n && now[n].start == segment.start);
                assert forall|j: int, k: int| 0 <= j < k < now.len() implies #[trigger] apart(now, j, k) by {
                    if k < n {
                        assert(apart(old_spans, j, k));
                    } else if joins {
                        assert(apart(old_spans, j, n));
                    } else {
                        assert(old_spans[j].end <= extent(before));
                    }
                }
                assert forall|k: int| 0 <= k < now.len() implies (#[trigger] now[k]).start < now[k].end
                    <= extent(after) by {
                    if k < n {
                        assert(old_spans[k].start < old_spans[k].end <= extent(before));
                    } else if joins {
                        assert(old_spans[n].start < old_spans[n].end <= extent(before));
                    }
                }
                assert forall|k: int, p: int| #[trigger] within(now, k, p) implies shows(
                    after,
                    p,
                    now[k].capture@,
                ) by {
                    lemma_next_segment(segments@, i as int, p);
                    if p < segment.start {
                        if k < n {
                            assert(within(old_spans, k, p));
                        } else {
                            assert(joins);
                            assert(within(old_spans, n, p));
                        }
                    } else {
                        if k < n {
                            assert(old_spans[k].end <= extent(before));
                        }
                    }
                }
                assert forall|p: int| (#[trigger] top_at(after, p)) is Some implies exists|k: int|
                    within(now, k, p) by {
                    lemma_next_segment(segments@, i as int, p);
                    if p < segment.start {
                        assert(top_at(before, p) is Some);
                        let k = choose|k: int| within(old_spans, k, p);
                        if k < n {
                            assert(within(now, k, p));
                        } else {
                            assert(within(now, n, p));
                        }
                    } else {
                        assert(within(now, n, p));
                    }
                }
                assert forall|k: int| 0 <= k < now.len() - 1 implies !#[trigger] mergeable(now, k) by {
                    if k < n - 1 {
                        assert(!mergeable(old_spans, k));
                    } else if joins {
                        assert(!mergeable(old_spans, k));
                    } else {
                        assert(old_spans[k].end <= extent(before));
                    }
                }
            }
        } else {
            proof {
                assert forall|k: int, p: int| #[trigger] within(spans@, k, p) implies shows(
                    after,
                    p,
                    spans@[k].capture@,
                ) by {
                    lemma_next_segment(segments@, i as int, p);
                    assert(spans@[k].end <= extent(before));
                }
                assert forall|p: int| (#[trigger] top_at(after, p)) is Some implies exists|k: int|
                    within(spans@, k, p) by {
                    lemma_next_segment(segments@, i as int, p);
                    assert(top_at(before, p) is Some);
                }
                assert forall|k: int| 0 <= k < spans@.len() implies (#[trigger] spans@[k]).start
                    < spans@[k].end <= extent(after) by {
                    assert(spans@[k].end <= extent(before));
                }
            }
        }
        i += 1;
    }
    proof {
        assert(segments@.take(segments.len() as int) =~= segments@);
    }
    spans
}

} // verus!
