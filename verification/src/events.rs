//! The layering of a text as one linear stream of events.
//!
//! A consumer that renders from left to right keeps a stack of open captures.
//! The stream tells it when to open a capture, when to close the innermost
//! open one, and which bytes of the text to emit under the captures that are
//! open at that moment. Between two neighbouring stretches of text only the
//! captures that differ are closed and opened.

use crate::layers::{Layering, Segment};
use vstd::prelude::*;

verus! {

/// One step of the stream.
#[derive(Debug)]
pub enum HighlightEvent {
    /// The bytes from `start` to `end` of the text come next, under the
    /// captures that are open.
    Source { start: usize, end: usize },
    /// The capture `capture` opens, inside those that are open.
    HighlightStart { capture: String },
    /// The innermost open capture closes.
    HighlightEnd,
}

/// The two stacks carry the same names in their first `count` places.
pub open spec fn agrees(a: Seq<String>, b: Seq<String>, count: int) -> bool {
    &&& 0 <= count <= a.len()
    &&& count <= b.len()
    &&& forall|i: int| 0 <= i < count ==> (#[trigger] a[i])@ == b[i]@
}

/// The two stacks carry the same names in their first `count` places and part there.
pub open spec fn parts_at(a: Seq<String>, b: Seq<String>, count: int) -> bool {
    &&& agrees(a, b, count)
    &&& count < a.len() && count < b.len() ==> a[count]@ != b[count]@
}

/// The number of places, from the outside in, in which the two stacks carry the
/// same names.
pub open spec fn shared(a: Seq<String>, b: Seq<String>) -> int {
    choose|count: int| parts_at(a, b, count)
}

/// Two stacks part at one place only.
pub proof fn lemma_shared(a: Seq<String>, b: Seq<String>, count: int)
    requires
        parts_at(a, b, count),
    ensures
        shared(a, b) == count,
{
    let chosen = shared(a, b);
    if chosen < count {
        assert(a[chosen]@ == b[chosen]@);
    } else if count < chosen {
        assert(a[count]@ == b[count]@);
    }
}

/// `count` closings in a row.
pub open spec fn closings(count: int) -> Seq<HighlightEvent> {
    Seq::new(count as nat, |i: int| HighlightEvent::HighlightEnd)
}

/// The openings of `names`, in order.
pub open spec fn openings(names: Seq<String>) -> Seq<HighlightEvent> {
    names.map_values(|name: String| HighlightEvent::HighlightStart { capture: name })
}

/// The events that lead from the stack `from` to the stack `to`: what the two
/// share stays open, the rest of `from` closes, the rest of `to` opens.
pub open spec fn passage(from: Seq<String>, to: Seq<String>) -> Seq<HighlightEvent> {
    closings(from.len() - shared(from, to)) + openings(to.skip(shared(from, to)))
}

/// The events for `segments`, starting with the stack `from` open.
pub open spec fn rendered(segments: Seq<Segment>, from: Seq<String>) -> Seq<HighlightEvent>
    decreases segments.len(),
{
    if segments.len() == 0 {
        closings(from.len() as int)
    } else {
        let first = segments.first();
        passage(from, first.layers@) + seq![
            HighlightEvent::Source { start: first.start, end: first.end },
        ] + rendered(segments.drop_first(), first.layers@)
    }
}

/// The event stream of a layering: it starts with nothing open and ends with
/// everything closed.
pub open spec fn events_of(segments: Seq<Segment>) -> Seq<HighlightEvent> {
    rendered(segments, Seq::empty())
}

/// The number of places in which the two stacks carry the same names.
pub fn shared_depth(a: &Vec<String>, b: &Vec<String>) -> (count: usize)
    ensures
        count == shared(a@, b@),
        parts_at(a@, b@, count as int),
{
    let mut count: usize = 0;
    while count < a.len() && count < b.len() && a[count] == b[count]
        invariant
            agrees(a@, b@, count as int),
        decreases a.len() - count,
    {
        count += 1;
    }
    proof {
        lemma_shared(a@, b@, count as int);
    }
    count
}

/// Appends to `events` the passage from the stack `from` to the stack `to`.
pub fn push_passage(events: &mut Vec<HighlightEvent>, from: &Vec<String>, to: &Vec<String>)
    ensures
        final(events)@ == old(events)@ + passage(from@, to@),
{
    let keep = shared_depth(from, to);
    let ghost start = events@;
    let mut closed: usize = 0;
    while closed < from.len() - keep
        invariant
            keep <= from.len(),
            closed <= from.len() - keep,
            events@ == start + closings(closed as int),
        decreases from.len() - keep - closed,
    {
        events.push(HighlightEvent::HighlightEnd);
        proof {
            assert(closings(closed + 1) =~= closings(closed as int).push(HighlightEvent::HighlightEnd));
            assert(start + closings(closed + 1) =~= (start + closings(closed as int)).push(
                HighlightEvent::HighlightEnd,
            ));
        }
        closed += 1;
    }
    let ghost shut = events@;
    let ghost rest = to@.skip(keep as int);
    let mut opened: usize = keep;
    proof {
        assert(openings(rest.take(0)) =~= Seq::<HighlightEvent>::empty());
        assert(shut + openings(rest.take(0)) =~= shut);
    }
    while opened < to.len()
        invariant
            keep <= opened <= to.len(),
            rest == to@.skip(keep as int),
            events@ == shut + openings(rest.take(opened - keep)),
        decreases to.len() - opened,
    {
        events.push(HighlightEvent::HighlightStart { capture: to[opened].clone() });
        proof {
            let before = rest.take(opened - keep);
            let after = rest.take(opened + 1 - keep);
            assert(after =~= before.push(to@[opened as int]));
            assert(openings(after) =~= openings(before).push(
                HighlightEvent::HighlightStart { capture: to@[opened as int] },
            ));
            assert(shut + openings(after) =~= (shut + openings(before)).push(
                HighlightEvent::HighlightStart { capture: to@[opened as int] },
            ));
        }
        opened += 1;
    }
    proof {
        assert(rest.take(to.len() - keep) =~= rest);
        assert(start + closings(from.len() - keep) + openings(rest) =~= start + passage(from@, to@));
    }
}

/// The event stream of a layering.
pub fn render(layering: &Layering) -> (events: Vec<HighlightEvent>)
    ensures
        events@ == events_of(layering@),
{
    let segments = layering.segments();
    let nothing: Vec<String> = Vec::new();
    let mut events: Vec<HighlightEvent> = Vec::new();
    let mut i: usize = 0;
    proof {
        assert(segments@.skip(0) =~= segments@);
        assert(nothing@ =~= Seq::<String>::empty());
    }
    while i < segments.len()
        invariant
            i <= segments.len(),
            nothing@ == Seq::<String>::empty(),
            events@ + rendered(
                segments@.skip(i as int),
                if i == 0 {
                    nothing@
                } else {
                    segments@[i - 1].layers@
                },
            ) == events_of(segments@),
        decreases segments.len() - i,
    {
        let ghost before = events@;
        let ghost open = if i == 0 {
            nothing@
        } else {
            segments@[i - 1].layers@
        };
        let segment = &segments[i];
        if i == 0 {
            push_passage(&mut events, &nothing, &segment.layers);
        } else {
            push_passage(&mut events, &segments[i - 1].layers, &segment.layers);
        }
        events.push(HighlightEvent::Source { start: segment.start, end: segment.end });
        proof {
            let rest = segments@.skip(i as int);
            assert(rest.first() == segments@[i as int]);
            assert(rest.drop_first() =~= segments@.skip(i + 1));
            let source = seq![HighlightEvent::Source { start: segment.start, end: segment.end }];
            assert(events@ =~= before + passage(open, segment.layers@) + source);
            assert(before + rendered(rest, open) =~= (before + passage(open, segment.layers@)
                + source) + rendered(segments@.skip(i + 1), segment.layers@));
        }
        i += 1;
    }
    let ghost before = events@;
    let ghost open = if i == 0 {
        nothing@
    } else {
        segments@[i - 1].layers@
    };
    proof {
        assert(segments@.skip(i as int) =~= Seq::<Segment>::empty());
    }
    if i == 0 {
        push_passage(&mut events, &nothing, &nothing);
    } else {
        push_passage(&mut events, &segments[i - 1].layers, &nothing);
    }
    proof {
        assert(parts_at(open, nothing@, 0));
        lemma_shared(open, nothing@, 0);
        assert(nothing@.skip(0) =~= Seq::<String>::empty());
        assert(openings(Seq::<String>::empty()) =~= Seq::<HighlightEvent>::empty());
        assert(passage(open, nothing@) =~= closings(open.len() as int));
    }
    events
}

/// A stretch of text as a consumer of the stream receives it: the bytes, and
/// the names of the captures that are open when they come, outermost first.
pub struct Emitted {
    pub start: int,
    pub end: int,
    pub open: Seq<Seq<char>>,
}

/// The names that a stack carries.
pub open spec fn names_of(stack: Seq<String>) -> Seq<Seq<char>> {
    stack.map_values(|name: String| name@)
}

/// What a consumer receives that starts with the captures `open` open and
/// follows the events: it opens and closes as told, and takes each stretch of
/// text under what is open at that moment.
pub open spec fn received(events: Seq<HighlightEvent>, open: Seq<Seq<char>>) -> Seq<Emitted>
    decreases events.len(),
{
    if events.len() == 0 {
        Seq::empty()
    } else {
        let rest = events.drop_first();
        match events[0] {
            HighlightEvent::Source { start, end } => seq![
                Emitted { start: start as int, end: end as int, open },
            ] + received(rest, open),
            HighlightEvent::HighlightStart { capture } => received(rest, open.push(capture@)),
            HighlightEvent::HighlightEnd => received(
                rest,
                if open.len() > 0 {
                    open.drop_last()
                } else {
                    open
                },
            ),
        }
    }
}

/// The events never close a capture that is not open, and leave none open,
/// for a consumer that starts with `depth` captures open.
pub open spec fn balanced(events: Seq<HighlightEvent>, depth: int) -> bool
    decreases events.len(),
{
    if events.len() == 0 {
        depth == 0
    } else {
        let rest = events.drop_first();
        match events[0] {
            HighlightEvent::Source { .. } => balanced(rest, depth),
            HighlightEvent::HighlightStart { .. } => balanced(rest, depth + 1),
            HighlightEvent::HighlightEnd => depth > 0 && balanced(rest, depth - 1),
        }
    }
}

/// The segments as a consumer is to receive them.
pub open spec fn expected(segments: Seq<Segment>) -> Seq<Emitted> {
    Seq::new(
        segments.len(),
        |k: int|
            Emitted {
                start: segments[k].start as int,
                end: segments[k].end as int,
                open: names_of(segments[k].layers@),
            },
    )
}

proof fn lemma_closings(count: int, rest: Seq<HighlightEvent>, open: Seq<Seq<char>>, depth: int)
    requires
        0 <= count <= open.len(),
        count <= depth,
    ensures
        received(closings(count) + rest, open) == received(rest, open.take(open.len() - count)),
        balanced(closings(count) + rest, depth) == balanced(rest, depth - count),
    decreases count,
{
    let events = closings(count) + rest;
    if count == 0 {
        assert(events =~= rest);
        assert(open.take(open.len() as int) =~= open);
    } else {
        assert(events[0] == HighlightEvent::HighlightEnd);
        assert(events.drop_first() =~= closings(count - 1) + rest);
        lemma_closings(count - 1, rest, open.drop_last(), depth - 1);
        assert(open.drop_last().take(open.len() - 1 - (count - 1)) =~= open.take(
            open.len() - count,
        ));
    }
}

proof fn lemma_openings(names: Seq<String>, rest: Seq<HighlightEvent>, open: Seq<Seq<char>>, depth: int)
    ensures
        received(openings(names) + rest, open) == received(rest, open + names_of(names)),
        balanced(openings(names) + rest, depth) == balanced(rest, depth + names.len()),
    decreases names.len(),
{
    let events = openings(names) + rest;
    if names.len() == 0 {
        assert(events =~= rest);
        assert(open + names_of(names) =~= open);
    } else {
        assert(events[0] == HighlightEvent::HighlightStart { capture: names[0] });
        assert(events.drop_first() =~= openings(names.drop_first()) + rest);
        lemma_openings(names.drop_first(), rest, open.push(names[0]@), depth + 1);
        assert(open.push(names[0]@) + names_of(names.drop_first()) =~= open + names_of(names));
    }
}

proof fn lemma_passage(from: Seq<String>, to: Seq<String>, rest: Seq<HighlightEvent>)
    ensures
        received(passage(from, to) + rest, names_of(from)) == received(rest, names_of(to)),
        balanced(passage(from, to) + rest, from.len() as int) == balanced(rest, to.len() as int),
{
    let keep = shared(from, to);
    assert(parts_at(from, to, keep)) by {
        lemma_parts(from, to, 0);
    }
    let tail = openings(to.skip(keep)) + rest;
    assert(passage(from, to) + rest =~= closings(from.len() - keep) + tail);
    lemma_closings(from.len() - keep, tail, names_of(from), from.len() as int);
    lemma_openings(to.skip(keep), rest, names_of(from).take(keep), keep);
    assert(names_of(from).take(keep) + names_of(to.skip(keep)) =~= names_of(to));
}

/// Two stacks part somewhere at or after any place up to which they agree.
proof fn lemma_parts(a: Seq<String>, b: Seq<String>, count: int)
    requires
        agrees(a, b, count),
    ensures
        exists|c: int| parts_at(a, b, c),
    decreases a.len() - count,
{
    if count < a.len() && count < b.len() && a[count]@ == b[count]@ {
        lemma_parts(a, b, count + 1);
    } else {
        assert(parts_at(a, b, count));
    }
}

proof fn lemma_rendered(segments: Seq<Segment>, from: Seq<String>)
    ensures
        received(rendered(segments, from), names_of(from)) == expected(segments),
        balanced(rendered(segments, from), from.len() as int),
    decreases segments.len(),
{
    let nothing = Seq::<HighlightEvent>::empty();
    if segments.len() == 0 {
        assert(rendered(segments, from) =~= closings(from.len() as int) + nothing);
        lemma_closings(from.len() as int, nothing, names_of(from), from.len() as int);
        assert(expected(segments) =~= Seq::<Emitted>::empty());
    } else {
        let first = segments.first();
        let source = HighlightEvent::Source { start: first.start, end: first.end };
        let later = rendered(segments.drop_first(), first.layers@);
        let tail = seq![source] + later;
        assert(rendered(segments, from) =~= passage(from, first.layers@) + tail);
        lemma_passage(from, first.layers@, tail);
        assert(tail[0] == source);
        assert(tail.drop_first() =~= later);
        lemma_rendered(segments.drop_first(), first.layers@);
        assert(expected(segments) =~= seq![
            Emitted {
                start: first.start as int,
                end: first.end as int,
                open: names_of(first.layers@),
            },
        ] + expected(segments.drop_first()));
    }
}

/// A consumer that follows the stream of a layering receives the segments of
/// the layering in text order, each under the very stack that the layering
/// gives it, outermost capture first. The stream never closes what is not
/// open, and at its end nothing is open.
pub proof fn law_stream_replays_layering(segments: Seq<Segment>)
    ensures
        received(events_of(segments), Seq::empty()) == expected(segments),
        balanced(events_of(segments), 0),
{
    lemma_rendered(segments, Seq::empty());
    assert(names_of(Seq::<String>::empty()) =~= Seq::<Seq<char>>::empty());
}

} // verus!
