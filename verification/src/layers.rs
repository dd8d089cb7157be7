//! Layered highlighting of a text.
//!
//! A [`Layering`] cuts a text of some byte length into consecutive segments and
//! gives each segment the stack of capture names that are in force over it,
//! outermost first. It is the form in which the engine holds highlighting while
//! it computes: every byte position has exactly one stack, and embedding the
//! highlighting of another language is an operation on stacks, position by
//! position.

use vstd::prelude::*;

verus! {

/// A run of bytes over which one stack of capture names is in force.
#[derive(Debug)]
pub struct Segment {
    /// First byte of the run.
    pub start: usize,
    /// One past the last byte of the run.
    pub end: usize,
    /// The capture names in force, outermost first. Empty for plain text.
    pub layers: Vec<String>,
}

impl Clone for Segment {
    fn clone(&self) -> (copy: Self)
        ensures
            copy.start == self.start,
            copy.end == self.end,
            copy.layers@ == self.layers@,
    {
        Segment { start: self.start, end: self.end, layers: clone_names(&self.layers) }
    }
}

/// The byte length that a list of segments reaches: the end of its last segment.
pub open spec fn extent(segments: Seq<Segment>) -> int {
    if segments.len() == 0 {
        0
    } else {
        segments.last().end as int
    }
}

/// Segment `k` ends where the next one starts.
pub open spec fn abuts(segments: Seq<Segment>, k: int) -> bool {
    segments[k].end == segments[k + 1].start
}

/// Segment `j` ends no later than segment `k` starts.
pub open spec fn precedes(segments: Seq<Segment>, j: int, k: int) -> bool {
    segments[j].end <= segments[k].start
}

/// The segments are non-empty, start at byte 0 and follow each other without
/// gap or overlap.
pub open spec fn tiles(segments: Seq<Segment>) -> bool {
    &&& forall|k: int| 0 <= k < segments.len() ==> (#[trigger] segments[k]).start < segments[k].end
    &&& segments.len() > 0 ==> segments[0].start == 0
    &&& forall|k: int| 0 <= k < segments.len() - 1 ==> #[trigger] abuts(segments, k)
    &&& forall|j: int, k: int| 0 <= j < k < segments.len() ==> #[trigger] precedes(segments, j, k)
}

/// Whether byte position `p` lies in segment `k`.
pub open spec fn holds(segments: Seq<Segment>, k: int, p: int) -> bool {
    0 <= k < segments.len() && segments[k].start <= p < segments[k].end
}

/// The stack of capture names in force at byte position `p`, outermost first:
/// that of the segment in which `p` lies, and the empty stack outside all segments.
pub open spec fn layers_at(segments: Seq<Segment>, p: int) -> Seq<String> {
    if exists|k: int| holds(segments, k, p) {
        segments[choose|k: int| holds(segments, k, p)].layers@
    } else {
        Seq::empty()
    }
}

/// The capture name that shows at byte position `p`: the innermost one in force there.
pub open spec fn top_at(segments: Seq<Segment>, p: int) -> Option<String> {
    let stack = layers_at(segments, p);
    if stack.len() == 0 {
        None
    } else {
        Some(stack.last())
    }
}

/// In a tiling, the segment in which a position lies decides its stack.
pub proof fn lemma_layers_at(segments: Seq<Segment>, k: int, p: int)
    requires
        tiles(segments),
        holds(segments, k, p),
    ensures
        layers_at(segments, p) == segments[k].layers@,
{
    let chosen = choose|c: int| holds(segments, c, p);
    if chosen < k {
        assert(precedes(segments, chosen, k));
    } else if k < chosen {
        assert(precedes(segments, k, chosen));
    }
}

/// A tiling leaves no position below its extent uncovered.
pub proof fn lemma_tiles_cover(segments: Seq<Segment>, p: int)
    requires
        tiles(segments),
        0 <= p < extent(segments),
    ensures
        exists|k: int| holds(segments, k, p),
    decreases segments.len(),
{
    let last = segments.len() - 1;
    if segments[last].start <= p {
        assert(holds(segments, last, p));
    } else {
        let front = segments.drop_last();
        assert(front.len() > 0) by {
            if front.len() == 0 {
                assert(segments[0].start == 0);
            }
        }
        assert(tiles(front)) by {
            assert forall|k: int| 0 <= k < front.len() implies (#[trigger] front[k]).start
                < front[k].end by {
                assert(front[k] == segments[k]);
            }
            assert forall|k: int| 0 <= k < front.len() - 1 implies #[trigger] abuts(front, k) by {
                assert(abuts(segments, k));
            }
            assert forall|j: int, k: int| 0 <= j < k < front.len() implies #[trigger] precedes(
                front,
                j,
                k,
            ) by {
                assert(precedes(segments, j, k));
            }
            assert(front[0] == segments[0]);
        }
        assert(front.last() == segments[last - 1]);
        assert(abuts(segments, last - 1));
        lemma_tiles_cover(front, p);
        let k = choose|k: int| holds(front, k, p);
        assert(front[k] == segments[k]);
        assert(holds(segments, k, p));
    }
}

/// Every segment of a tiling lies within its extent.
pub proof fn lemma_within_extent(segments: Seq<Segment>, k: int)
    requires
        tiles(segments),
        0 <= k < segments.len(),
    ensures
        0 <= segments[k].start < segments[k].end <= extent(segments),
{
    let last = segments.len() - 1;
    if k < last {
        assert(precedes(segments, k, last));
    }
    if 0 < k {
        assert(precedes(segments, 0, k));
    }
}

/// Outside the extent of a tiling no capture is in force.
pub proof fn lemma_plain_outside(segments: Seq<Segment>, p: int)
    requires
        tiles(segments),
        p < 0 || extent(segments) <= p,
    ensures
        layers_at(segments, p) == Seq::<String>::empty(),
{
    if exists|k: int| holds(segments, k, p) {
        let k = choose|k: int| holds(segments, k, p);
        lemma_within_extent(segments, k);
    }
}

/// A copy of a list of names.
pub fn clone_names(names: &Vec<String>) -> (copy: Vec<String>)
    ensures
        copy@ == names@,
{
    let mut copy: Vec<String> = Vec::new();
    let mut i: usize = 0;
    while i < names.len()
        invariant
            i <= names.len(),
            copy@ == names@.take(i as int),
        decreases names.len() - i,
    {
        copy.push(names[i].clone());
        proof {
            assert(names@.take(i + 1) =~= names@.take(i as int).push(names@[i as int]));
        }
        i += 1;
    }
    proof {
        assert(names@.take(names.len() as int) =~= names@);
    }
    copy
}

/// The names of `outer` followed by those of `inner`.
pub fn stack_names(outer: &Vec<String>, inner: &Vec<String>) -> (stack: Vec<String>)
    ensures
        stack@ == outer@ + inner@,
{
    let mut stack = clone_names(outer);
    let mut i: usize = 0;
    while i < inner.len()
        invariant
            i <= inner.len(),
            stack@ == outer@ + inner@.take(i as int),
        decreases inner.len() - i,
    {
        stack.push(inner[i].clone());
        proof {
            assert(inner@.take(i + 1) =~= inner@.take(i as int).push(inner@[i as int]));
            assert(outer@ + inner@.take(i + 1) =~= (outer@ + inner@.take(i as int)).push(
                inner@[i as int],
            ));
        }
        i += 1;
    }
    proof {
        assert(inner@.take(inner.len() as int) =~= inner@);
    }
    stack
}

/// A tiling of a text: consecutive segments from byte 0 up to the text's
/// length, each with its stack of capture names.
#[derive(Debug)]
pub struct Layering {
    segments: Vec<Segment>,
}

/// The stack at position `p` once the layering `child` of the bytes from
/// `start` to `end` has been embedded in `parent`.
///
/// Outside the embedded range the parent's stack stands. Inside it the child's
/// stack stands, on top of the parent's where `keep_parent` is set and alone
/// where it is not.
pub open spec fn spliced_layers(
    parent: Seq<Segment>,
    start: int,
    end: int,
    keep_parent: bool,
    child: Seq<Segment>,
    p: int,
) -> Seq<String> {
    if start <= p < end {
        if keep_parent {
            layers_at(parent, p) + layers_at(child, p - start)
        } else {
            layers_at(child, p - start)
        }
    } else {
        layers_at(parent, p)
    }
}

impl View for Layering {
    type V = Seq<Segment>;

    closed spec fn view(&self) -> Seq<Segment> {
        self.segments@
    }
}

impl Layering {
    /// A layering always tiles its text.
    #[verifier::type_invariant]
    pub open spec fn well_formed(&self) -> bool {
        tiles(self@)
    }

    /// The byte length of the text that the layering covers.
    pub open spec fn spec_len(&self) -> int {
        extent(self@)
    }

    /// The segments, in text order.
    pub fn segments(&self) -> (segments: &Vec<Segment>)
        ensures
            segments@ == self@,
            tiles(segments@),
    {
        proof {
            use_type_invariant(self);
        }
        &self.segments
    }

    /// The byte length of the text that the layering covers.
    pub fn len(&self) -> (len: usize)
        ensures
            len == self.spec_len(),
    {
        if self.segments.len() == 0 {
            0
        } else {
            self.segments[self.segments.len() - 1].end
        }
    }

    /// The layering of `len` bytes of plain text: no capture anywhere.
    pub fn plain(len: usize) -> (layering: Layering)
        ensures
            layering.spec_len() == len,
            tiles(layering@),
            forall|p: int| layers_at(layering@, p) == Seq::<String>::empty(),
    {
        let mut segments: Vec<Segment> = Vec::new();
        if len > 0 {
            segments.push(Segment { start: 0, end: len, layers: Vec::new() });
        }
        proof {
            assert forall|p: int| layers_at(segments@, p) == Seq::<String>::empty() by {
                if exists|k: int| holds(segments@, k, p) {
                    let k = choose|k: int| holds(segments@, k, p);
                    assert(segments@[k].layers@ =~= Seq::<String>::empty());
                }
            }
        }
        Layering { segments }
    }

    /// The layering of `len` bytes that are all under the one stack `layers`.
    pub fn uniform(len: usize, layers: Vec<String>) -> (layering: Layering)
        ensures
            layering.spec_len() == len,
            tiles(layering@),
            forall|p: int| 0 <= p < len ==> layers_at(layering@, p) == layers@,
    {
        let mut segments: Vec<Segment> = Vec::new();
        if len > 0 {
            segments.push(Segment { start: 0, end: len, layers });
        }
        proof {
            assert forall|p: int| 0 <= p < len implies layers_at(segments@, p) == layers@ by {
                assert(holds(segments@, 0, p));
                lemma_layers_at(segments@, 0, p);
            }
        }
        Layering { segments }
    }

    /// The layering that `segments` describe, if they tile a text.
    pub fn from_segments(segments: Vec<Segment>) -> (layering: Option<Layering>)
        ensures
            layering is Some <==> tiles(segments@),
            layering matches Some(l) ==> l@ == segments@,
    {
        let mut k: usize = 0;
        while k < segments.len()
            invariant
                k <= segments.len(),
                tiles(segments@.take(k as int)),
            decreases segments.len() - k,
        {
            let fits = segments[k].start < segments[k].end && if k == 0 {
                segments[k].start == 0
            } else {
                segments[k - 1].end == segments[k].start
            };
            if !fits {
                proof {
                    if tiles(segments@) && k > 0 {
                        assert(abuts(segments@, k - 1));
                    }
                }
                return None;
            }
            proof {
                let before = segments@.take(k as int);
                let now = segments@.take(k + 1);
                assert forall|i: int, j: int| 0 <= i < j < now.len() implies #[trigger] precedes(
                    now,
                    i,
                    j,
                ) by {
                    if j < k {
                        assert(precedes(before, i, j));
                    } else {
                        lemma_within_extent(before, i);
                    }
                }
                assert forall|i: int| 0 <= i < now.len() - 1 implies #[trigger] abuts(now, i) by {
                    if i < k - 1 {
                        assert(abuts(before, i));
                    }
                }
                assert forall|i: int| 0 <= i < now.len() implies (#[trigger] now[i]).start
                    < now[i].end by {
                    if i < k {
                        assert(before[i] == now[i]);
                    }
                }
                if k > 0 {
                    assert(before[0] == now[0]);
                }
            }
            k += 1;
        }
        proof {
            assert(segments@.take(segments.len() as int) =~= segments@);
        }
        Some(Layering { segments })
    }

    /// Embeds `child`, the layering of the bytes from `start` to `end` of this
    /// text, at that range.
    ///
    /// With `keep_parent` the captures of this layering stay in force around the
    /// child's; without it the child's captures replace them over the range.
    /// The ranges must fit: `None` is returned where the range does not lie in
    /// this text or the child covers another length.
    pub fn splice(&self, start: usize, end: usize, keep_parent: bool, child: &Layering) -> (merged:
        Option<Layering>)
        ensures
            merged is Some <==> start <= end <= self.spec_len() && child.spec_len() == end - start,
            merged matches Some(m) ==> {
                &&& tiles(m@)
                &&& m.spec_len() == self.spec_len()
                &&& forall|p: int|
                    layers_at(m@, p) == spliced_layers(self@, start as int, end as int, keep_parent, child@, p)
            },
    {
        let n = self.len();
        if !(start <= end && end <= n && child.len() == end - start) {
            return None;
        }
        proof {
            use_type_invariant(self);
            use_type_invariant(child);
        }
        let parent = &self.segments;
        let inner = &child.segments;
        let mut out: Vec<Segment> = Vec::new();
        let mut pos: usize = 0;
        let mut i: usize = 0;
        let mut j: usize = 0;
        while pos < n
            invariant
                tiles(parent@),
                tiles(inner@),
                extent(parent@) == n,
                extent(inner@) == end - start,
                start <= end <= n,
                pos <= n,
                tiles(out@),
                extent(out@) == pos,
                pos < n ==> holds(parent@, i as int, pos as int),
                pos <= start ==> j == 0,
                start <= pos < end ==> holds(inner@, j as int, pos - start),
                forall|k: int, p: int| #[trigger]
                    holds(out@, k, p) ==> out@[k].layers@ == spliced_layers(
                        parent@,
                        start as int,
                        end as int,
                        keep_parent,
                        inner@,
                        p,
                    ),
            decreases n - pos,
        {
            let ghost before = out@;
            assert(i < parent.len());
            let outer = &parent[i];
            let inside = start <= pos && pos < end;
            let mut stop = outer.end;
            proof {
                lemma_within_extent(parent@, i as int);
                if inside {
                    lemma_within_extent(inner@, j as int);
                }
            }
            let layers = if pos < start {
                if start < stop && start < end {
                    stop = start;
                }
                clone_names(&outer.layers)
            } else if pos < end {
                let embedded = &inner[j];
                if end < stop {
                    stop = end;
                }
                if embedded.end + start < stop {
                    stop = embedded.end + start;
                }
                if keep_parent {
                    stack_names(&outer.layers, &embedded.layers)
                } else {
                    clone_names(&embedded.layers)
                }
            } else {
                clone_names(&outer.layers)
            };
            proof {
                assert forall|p: int| pos <= p < stop implies layers@ == spliced_layers(
                    parent@,
                    start as int,
                    end as int,
                    keep_parent,
                    inner@,
                    p,
                ) by {
                    assert(holds(parent@, i as int, p));
                    lemma_layers_at(parent@, i as int, p);
                    if inside {
                        assert(holds(inner@, j as int, p - start));
                        lemma_layers_at(inner@, j as int, p - start);
                    }
                }
            }
            out.push(Segment { start: pos, end: stop, layers });
            proof {
                let now = out@;
                let last = now.len() - 1;
                assert forall|k: int| 0 <= k < last implies now[k] == before[k] by {}
                assert forall|a: int, b: int| 0 <= a < b < now.len() implies #[trigger] precedes(
                    now,
                    a,
                    b,
                ) by {
                    if b == last {
                        lemma_within_extent(before, a);
                    } else {
                        assert(precedes(before, a, b));
                    }
                }
                assert forall|k: int| 0 <= k < now.len() - 1 implies #[trigger] abuts(now, k) by {
                    if k + 1 < last {
                        assert(abuts(before, k));
                    }
                }
                assert forall|k: int| 0 <= k < now.len() implies (#[trigger] now[k]).start
                    < now[k].end by {
                    if k < last {
                        assert(before[k].start < before[k].end);
                    }
                }
                assert forall|k: int, p: int| #[trigger] holds(now, k, p) implies now[k].layers@
                    == spliced_layers(parent@, start as int, end as int, keep_parent, inner@, p) by {
                    if k < last {
                        assert(holds(before, k, p));
                    }
                }
            }
            if inside && stop == inner[j].end + start {
                assert(j < inner.len());
                proof {
                    if stop < end {
                        assert(abuts(inner@, j as int));
                    }
                }
                j += 1;
            }
            if stop == outer.end {
                proof {
                    if stop < n {
                        assert(abuts(parent@, i as int));
                    }
                }
                i += 1;
            }
            proof {
                if stop == start && start < end {
                    assert(inner@.len() > 0);
                    assert(inner@[0].start == 0);
                }
            }
            pos = stop;
        }
        proof {
            assert forall|p: int| layers_at(out@, p) == spliced_layers(
                parent@,
                start as int,
                end as int,
                keep_parent,
                inner@,
                p,
            ) by {
                if 0 <= p < n {
                    lemma_tiles_cover(out@, p);
                    let k = choose|k: int| holds(out@, k, p);
                    lemma_layers_at(out@, k, p);
                } else {
                    lemma_plain_outside(out@, p);
                    lemma_plain_outside(parent@, p);
                }
            }
        }
        Some(Layering { segments: out })
    }
}

} // verus!
