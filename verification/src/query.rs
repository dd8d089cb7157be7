//! The highlight query engine: from the capture matches that a grammar reports
//! to one stack of capture names for every byte of the text.
//!
//! A grammar reports candidates: ranges of the text with a capture name, the
//! pattern that matched and the length of that match. Candidates may repeat a
//! range and may nest. The engine keeps one candidate for each range (the best
//! match, see [`outranks`]), orders the kept ones from the outside in, and
//! lays them over the text in that order.

use crate::grammar::{ByteRange, Capture};
use crate::layers::{layers_at, tiles, Layering};
use crate::locals::{is_resolved, resolves};
use vstd::prelude::*;
use vstd::relations::*;

verus! {

/// One capture match.
#[derive(Debug)]
pub struct Candidate {
    /// First byte of the captured range.
    pub start: usize,
    /// One past the last byte of the captured range.
    pub end: usize,
    /// Whether the candidate comes from the resolution of a local variable
    /// rather than from a highlight pattern.
    pub local: bool,
    /// Length in bytes of the whole pattern match that the capture belongs to.
    pub match_len: usize,
    /// Position of the pattern in the query, counted in declaration order.
    pub pattern: u32,
    /// The capture name.
    pub capture: String,
}

/// A candidate can be laid over a text of `len` bytes when its range is not
/// empty and lies within the text.
pub open spec fn usable(c: Candidate, len: int) -> bool {
    c.start < c.end <= len
}

/// Two candidates capture the same range.
pub open spec fn same_range(a: Candidate, b: Candidate) -> bool {
    a.start == b.start && a.end == b.end
}

/// Candidate `i` takes precedence over candidate `j` on a range that both capture.
///
/// A resolved local variable goes before any highlight pattern. Among the rest
/// the longer match goes first, then the pattern declared later, then the
/// candidate reported later.
pub open spec fn outranks(candidates: Seq<Candidate>, i: int, j: int) -> bool {
    let a = candidates[i];
    let b = candidates[j];
    if a.local != b.local {
        a.local
    } else if a.match_len != b.match_len {
        a.match_len > b.match_len
    } else if a.pattern != b.pattern {
        a.pattern > b.pattern
    } else {
        i > j
    }
}

/// Candidate `j` captures the range of candidate `i` and takes precedence over it.
pub open spec fn displaces(candidates: Seq<Candidate>, j: int, i: int) -> bool {
    j != i && same_range(candidates[i], candidates[j]) && !outranks(candidates, i, j)
}

/// Candidate `i` is kept: it is usable and no other candidate displaces it.
pub open spec fn wins(candidates: Seq<Candidate>, len: int, i: int) -> bool {
    &&& 0 <= i < candidates.len()
    &&& usable(candidates[i], len)
    &&& forall|j: int| 0 <= j < candidates.len() ==> !#[trigger] displaces(candidates, j, i)
}

/// Whether candidate `i` is kept for a text of `len` bytes.
pub fn is_winner(candidates: &Vec<Candidate>, len: usize, i: usize) -> (kept: bool)
    ensures
        kept == wins(candidates@, len as int, i as int),
{
    if i >= candidates.len() {
        return false;
    }
    let c = &candidates[i];
    if !(c.start < c.end && c.end <= len) {
        return false;
    }
    let mut j: usize = 0;
    while j < candidates.len()
        invariant
            j <= candidates.len(),
            i < candidates.len(),
            c == candidates@[i as int],
            forall|k: int| 0 <= k < j ==> !#[trigger] displaces(candidates@, k, i as int),
        decreases candidates.len() - j,
    {
        let d = &candidates[j];
        if j != i && d.start == c.start && d.end == c.end {
            let ahead = if c.local != d.local {
                c.local
            } else if c.match_len != d.match_len {
                c.match_len > d.match_len
            } else if c.pattern != d.pattern {
                c.pattern > d.pattern
            } else {
                i > j
            };
            if !ahead {
                assert(displaces(candidates@, j as int, i as int));
                return false;
            }
        }
        j += 1;
    }
    true
}

/// Candidate `i` is laid down no later than candidate `j`: it starts earlier,
/// or starts at the same byte and reaches further, so that what is laid down
/// later lies inside or to the right. Candidates of one range go by their
/// position in the list.
pub open spec fn paints_before_at(candidates: Seq<Candidate>, i: usize, j: usize) -> bool {
    if i < candidates.len() && j < candidates.len() {
        let a = candidates[i as int];
        let b = candidates[j as int];
        a.start < b.start || (a.start == b.start && (a.end > b.end || (a.end == b.end && i <= j)))
    } else {
        i <= j
    }
}

/// The order in which candidates are laid down, as a relation on their positions.
pub open spec fn paints_before(candidates: Seq<Candidate>) -> spec_fn(usize, usize) -> bool {
    |i: usize, j: usize| paints_before_at(candidates, i, j)
}

/// The first `count` positions of a list, in order.
pub open spec fn positions(count: nat) -> Seq<usize> {
    Seq::new(count, |k: int| k as usize)
}

/// The positions of the kept candidates among the first `count`, in list order.
pub open spec fn winners_among(candidates: Seq<Candidate>, len: int, count: nat) -> Seq<usize> {
    positions(count).filter(|i: usize| wins(candidates, len, i as int))
}

/// The positions of the kept candidates in the order in which they are laid
/// down: from the outside in, and from left to right.
pub open spec fn paint_order(candidates: Seq<Candidate>, len: int) -> Seq<usize> {
    winners_among(candidates, len, candidates.len()).sort_by(paints_before(candidates))
}

/// The laying order is a total order on positions.
pub proof fn lemma_paints_before_total(candidates: Seq<Candidate>)
    ensures
        total_ordering(paints_before(candidates)),
{
    let leq = paints_before(candidates);
    assert(reflexive(leq));
    assert(antisymmetric(leq));
    assert(strongly_connected(leq));
    assert(transitive(leq)) by {
        assert forall|x: usize, y: usize, z: usize| #[trigger] leq(x, y) && #[trigger] leq(y, z) implies leq(x, z) by {
            assert(paints_before_at(candidates, x, y));
            assert(paints_before_at(candidates, y, z));
        }
    }
}

/// Whether candidate `i` is laid down no later than candidate `j`.
pub fn goes_before(candidates: &Vec<Candidate>, i: usize, j: usize) -> (before: bool)
    ensures
        before == paints_before_at(candidates@, i, j),
{
    if i >= candidates.len() || j >= candidates.len() {
        return i <= j;
    }
    let a = &candidates[i];
    let b = &candidates[j];
    a.start < b.start || (a.start == b.start && (a.end > b.end || (a.end == b.end && i <= j)))
}

/// The positions of the kept candidates, in the order in which they are laid down.
pub fn paint_order_of(candidates: &Vec<Candidate>, len: usize) -> (order: Vec<usize>)
    ensures
        order@ == paint_order(candidates@, len as int),
        forall|k: int| 0 <= k < order.len() ==> wins(candidates@, len as int, #[trigger] order@[k] as int),
{
    let ghost leq = paints_before(candidates@);
    let ghost kept = |i: usize| wins(candidates@, len as int, i as int);
    let mut order: Vec<usize> = Vec::new();
    let mut i: usize = 0;
    proof {
        lemma_paints_before_total(candidates@);
        assert(positions(0).filter(kept) =~= Seq::<usize>::empty()) by {
            reveal(Seq::filter);
        }
    }
    while i < candidates.len()
        invariant
            i <= candidates.len(),
            leq == paints_before(candidates@),
            kept == (|i: usize| wins(candidates@, len as int, i as int)),
            total_ordering(leq),
            sorted_by(order@, leq),
            order@.to_multiset() == positions(i as nat).filter(kept).to_multiset(),
            forall|k: int| 0 <= k < order.len() ==> wins(candidates@, len as int, #[trigger] order@[k] as int),
        decreases candidates.len() - i,
    {
        proof {
            assert(positions((i + 1) as nat) =~= positions(i as nat).push(i));
            positions(i as nat).lemma_filter_push(i, kept);
        }
        if is_winner(candidates, len, i) {
            let mut at: usize = 0;
            while at < order.len() && goes_before(candidates, order[at], i)
                invariant
                    at <= order.len(),
                    i < candidates.len(),
                    leq == paints_before(candidates@),
                    forall|k: int| 0 <= k < order.len() ==> wins(candidates@, len as int, #[trigger] order@[k] as int),
                    forall|k: int| 0 <= k < at ==> leq(#[trigger] order@[k], i),
                decreases order.len() - at,
            {
                at += 1;
            }
            proof {
                let before = order@;
                let after = before.insert(at as int, i);
                assert forall|a: int, b: int| 0 <= a < b < after.len() implies #[trigger] leq(
                    after[a],
                    after[b],
                ) by {
                    if b < at {
                        assert(leq(before[a], before[b]));
                    } else if b == at {
                        assert(leq(before[a], i));
                    } else if a < at {
                        assert(leq(before[a], before[b - 1]));
                    } else if a == at {
                        assert(!leq(before[at as int], i));
                        assert(leq(i, before[at as int]) || leq(before[at as int], i));
                        if b - 1 > at {
                            assert(leq(before[at as int], before[b - 1]));
                            assert(leq(i, before[at as int]) && leq(before[at as int], before[b - 1]));
                        }
                    } else {
                        assert(leq(before[a - 1], before[b - 1]));
                    }
                }
                vstd::seq_lib::to_multiset_insert(before, at as int, i);
                vstd::seq_lib::to_multiset_build(positions(i as nat).filter(kept), i);
            }
            order.insert(at, i);
        }
        i += 1;
    }
    proof {
        let all = winners_among(candidates@, len as int, candidates@.len());
        assert(all == positions(candidates@.len()).filter(kept));
        all.lemma_sort_by_ensures(leq);
        vstd::seq_lib::lemma_sorted_unique(order@, all.sort_by(leq), leq);
    }
    order
}

/// The stack at byte position `p` once the candidates at the positions
/// `order` have been laid down in that order: the names of those that capture
/// `p`, first laid outermost.
pub open spec fn painted(candidates: Seq<Candidate>, order: Seq<usize>, p: int) -> Seq<String>
    decreases order.len(),
{
    if order.len() == 0 {
        Seq::empty()
    } else {
        let below = painted(candidates, order.drop_last(), p);
        let c = candidates[order.last() as int];
        if c.start <= p < c.end {
            below.push(c.capture)
        } else {
            below
        }
    }
}

/// The stack of capture names that the candidates put at byte position `p` of
/// a text of `len` bytes.
pub open spec fn resolved_layers(candidates: Seq<Candidate>, len: int, p: int) -> Seq<String> {
    painted(candidates, paint_order(candidates, len), p)
}

/// Resolves the candidates reported for a text of `len` bytes into a layering
/// of that text.
///
/// Candidates that are empty or reach outside the text are ignored. Of candidates
/// on one range the best match is kept. The kept ones are laid over the text
/// from the outside in, each on top of what lies under it, so that at every
/// byte the innermost capture shows.
pub fn layer_candidates(candidates: &Vec<Candidate>, len: usize) -> (layering: Layering)
    ensures
        layering.spec_len() == len,
        tiles(layering@),
        forall|p: int| layers_at(layering@, p) == resolved_layers(candidates@, len as int, p),
{
    let order = paint_order_of(candidates, len);
    let mut layering = Layering::plain(len);
    let mut k: usize = 0;
    while k < order.len()
        invariant
            k <= order.len(),
            layering.spec_len() == len,
            tiles(layering@),
            forall|i: int| 0 <= i < order.len() ==> wins(candidates@, len as int, #[trigger] order@[i] as int),
            forall|p: int| layers_at(layering@, p) == painted(candidates@, order@.take(k as int), p),
        decreases order.len() - k,
    {
        assert(wins(candidates@, len as int, order@[k as int] as int));
        let c = &candidates[order[k]];
        let mut name: Vec<String> = Vec::new();
        name.push(c.capture.clone());
        let cover = Layering::uniform(c.end - c.start, name);
        let ghost under = layering@;
        match layering.splice(c.start, c.end, true, &cover) {
            Some(merged) => {
                proof {
                    let now = order@.take(k + 1);
                    assert(now.drop_last() =~= order@.take(k as int));
                    assert(now.last() == order@[k as int]);
                    assert forall|p: int| layers_at(merged@, p) == painted(candidates@, now, p) by {
                        if c.start <= p < c.end {
                            assert(layers_at(cover@, p - c.start) =~= seq![c.capture]);
                            assert(layers_at(under, p) + seq![c.capture] =~= layers_at(under, p).push(c.capture));
                        }
                    }
                }
                layering = merged;
            },
            None => unreached(),
        }
        k += 1;
    }
    proof {
        assert(order@.take(order.len() as int) =~= order@);
    }
    layering
}

/// The candidate that a capture of the highlight query stands for.
pub open spec fn from_capture(c: Capture) -> Candidate {
    Candidate {
        start: c.start,
        end: c.end,
        local: false,
        match_len: c.match_len,
        pattern: c.pattern,
        capture: c.capture,
    }
}

/// The candidate that a resolved reference stands for, under the capture name
/// `name` for local variables.
pub open spec fn from_reference(r: ByteRange, name: String) -> Candidate {
    Candidate { start: r.start, end: r.end, local: true, match_len: 0, pattern: 0, capture: name }
}

/// The candidates that the references to local variables give: one for each
/// reference that resolves, in the order of the references.
pub open spec fn local_candidates(
    text: Seq<u8>,
    scopes: Seq<ByteRange>,
    definitions: Seq<ByteRange>,
    references: Seq<ByteRange>,
    name: String,
) -> Seq<Candidate> {
    references.filter(|r: ByteRange| resolves(text, scopes, definitions, r)).map_values(
        |r: ByteRange| from_reference(r, name),
    )
}

/// All candidates of a scan: those of the highlight query, then those of the
/// resolved references.
pub open spec fn candidates_of(
    text: Seq<u8>,
    captures: Seq<Capture>,
    scopes: Seq<ByteRange>,
    definitions: Seq<ByteRange>,
    references: Seq<ByteRange>,
    name: String,
) -> Seq<Candidate> {
    captures.map_values(|c: Capture| from_capture(c)) + local_candidates(
        text,
        scopes,
        definitions,
        references,
        name,
    )
}

/// Gathers the candidates of a scan of `text`. Resolved references are given
/// the capture name `name`.
pub fn collect_candidates(
    text: &[u8],
    captures: &Vec<Capture>,
    scopes: &Vec<ByteRange>,
    definitions: &Vec<ByteRange>,
    references: &Vec<ByteRange>,
    name: &String,
) -> (candidates: Vec<Candidate>)
    ensures
        candidates@ == candidates_of(
            text@,
            captures@,
            scopes@,
            definitions@,
            references@,
            *name,
        ),
{
    let ghost lift = |c: Capture| from_capture(c);
    let ghost resolved = |r: ByteRange| resolves(text@, scopes@, definitions@, r);
    let ghost tag = |r: ByteRange| from_reference(r, *name);
    let mut candidates: Vec<Candidate> = Vec::new();
    let mut i: usize = 0;
    while i < captures.len()
        invariant
            i <= captures.len(),
            lift == (|c: Capture| from_capture(c)),
            candidates@ == captures@.take(i as int).map_values(lift),
        decreases captures.len() - i,
    {
        let c = &captures[i];
        candidates.push(
            Candidate {
                start: c.start,
                end: c.end,
                local: false,
                match_len: c.match_len,
                pattern: c.pattern,
                capture: c.capture.clone(),
            },
        );
        proof {
            assert(captures@.take(i + 1) =~= captures@.take(i as int).push(captures@[i as int]));
            assert(captures@.take(i + 1).map_values(lift) =~= captures@.take(i as int).map_values(
                lift,
            ).push(lift(captures@[i as int])));
        }
        i += 1;
    }
    let ghost highlighted = candidates@;
    proof {
        assert(captures@.take(captures.len() as int) =~= captures@);
        assert(references@.take(0).filter(resolved) =~= Seq::<ByteRange>::empty()) by {
            reveal(Seq::filter);
        }
        assert(highlighted + Seq::<ByteRange>::empty().map_values(tag) =~= highlighted);
    }
    let mut k: usize = 0;
    while k < references.len()
        invariant
            k <= references.len(),
            resolved == (|r: ByteRange| resolves(text@, scopes@, definitions@, r)),
            tag == (|r: ByteRange| from_reference(r, *name)),
            highlighted == captures@.map_values(lift),
            candidates@ == highlighted + references@.take(k as int).filter(resolved).map_values(tag),
        decreases references.len() - k,
    {
        let r = &references[k];
        proof {
            assert(references@.take(k + 1) =~= references@.take(k as int).push(references@[k as int]));
            references@.take(k as int).lemma_filter_push(references@[k as int], resolved);
        }
        if is_resolved(text, scopes, definitions, r) {
            candidates.push(
                Candidate {
                    start: r.start,
                    end: r.end,
                    local: true,
                    match_len: 0,
                    pattern: 0,
                    capture: name.clone(),
                },
            );
            proof {
                let so_far = references@.take(k as int).filter(resolved);
                assert(so_far.push(*r).map_values(tag) =~= so_far.map_values(tag).push(tag(*r)));
                assert(highlighted + so_far.map_values(tag).push(tag(*r)) =~= (highlighted
                    + so_far.map_values(tag)).push(tag(*r)));
            }
        }
        k += 1;
    }
    proof {
        assert(references@.take(references.len() as int) =~= references@);
    }
    candidates
}

} // verus!
