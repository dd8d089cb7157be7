//! Embedded languages: which of the reported ranges are taken, and how the
//! highlighting of each is set into that of the surrounding text.

use crate::grammar::Embedding;
use crate::layers::{layers_at, tiles, Layering, Segment};
use vstd::prelude::*;

verus! {

/// The embedding is not empty, lies within a text of `len` bytes and starts no
/// earlier than `frontier`.
pub open spec fn fits(e: Embedding, frontier: int, len: int) -> bool {
    frontier <= e.start < e.end <= len
}

/// Embedding `j` ends no later than embedding `k` starts.
pub open spec fn clear_of(embeddings: Seq<Embedding>, j: int, k: int) -> bool {
    embeddings[j].end <= embeddings[k].start
}

/// The embeddings are non-empty ranges of a text of `len` bytes, in text order
/// and without overlap.
pub open spec fn in_order(embeddings: Seq<Embedding>, len: int) -> bool {
    &&& forall|k: int| 0 <= k < embeddings.len() ==> fits(#[trigger] embeddings[k], 0, len)
    &&& forall|j: int, k: int| 0 <= j < k < embeddings.len() ==> #[trigger] clear_of(embeddings, j, k)
}

/// The byte up to which the taken ones of `embeddings` reach.
pub open spec fn frontier(embeddings: Seq<Embedding>, len: int) -> int
    decreases embeddings.len(),
{
    if embeddings.len() == 0 {
        0
    } else {
        let before = frontier(embeddings.drop_last(), len);
        if fits(embeddings.last(), before, len) {
            embeddings.last().end as int
        } else {
            before
        }
    }
}

/// The embeddings that are taken, of those that a grammar reports for a text
/// of `len` bytes: going through them in the order reported, each one that is
/// not empty, lies within the text and starts no earlier than the last taken
/// one ended.
pub open spec fn taken(embeddings: Seq<Embedding>, len: int) -> Seq<Embedding>
    decreases embeddings.len(),
{
    if embeddings.len() == 0 {
        Seq::empty()
    } else {
        let before = embeddings.drop_last();
        if fits(embeddings.last(), frontier(before, len), len) {
            taken(before, len).push(embeddings.last())
        } else {
            taken(before, len)
        }
    }
}

/// The taken embeddings lie in order below the frontier.
pub proof fn lemma_taken_in_order(embeddings: Seq<Embedding>, len: int)
    ensures
        in_order(taken(embeddings, len), len),
        frontier(embeddings, len) >= 0,
        forall|k: int|
            0 <= k < taken(embeddings, len).len() ==> (#[trigger] taken(embeddings, len)[k]).end
                <= frontier(embeddings, len),
    decreases embeddings.len(),
{
    if embeddings.len() > 0 {
        let before = embeddings.drop_last();
        lemma_taken_in_order(before, len);
        let kept = taken(before, len);
        let all = taken(embeddings, len);
        if fits(embeddings.last(), frontier(before, len), len) {
            assert forall|j: int, k: int| 0 <= j < k < all.len() implies #[trigger] clear_of(all, j, k) by {
                if k < kept.len() {
                    assert(clear_of(kept, j, k));
                } else {
                    assert(kept[j].end <= frontier(before, len));
                }
            }
            assert forall|k: int| 0 <= k < all.len() implies (#[trigger] all[k]).end <= frontier(
                embeddings,
                len,
            ) by {
                if k < kept.len() {
                    assert(kept[k].end <= frontier(before, len));
                }
            }
            assert forall|k: int| 0 <= k < all.len() implies fits(#[trigger] all[k], 0, len) by {
                if k < kept.len() {
                    assert(fits(kept[k], 0, len));
                }
            }
        }
    }
}

/// Picks the embeddings that are taken for a text of `len` bytes.
pub fn take_embeddings(embeddings: &Vec<Embedding>, len: usize) -> (kept: Vec<Embedding>)
    ensures
        kept@ == taken(embeddings@, len as int),
        in_order(kept@, len as int),
{
    let mut kept: Vec<Embedding> = Vec::new();
    let mut reach: usize = 0;
    let mut i: usize = 0;
    while i < embeddings.len()
        invariant
            i <= embeddings.len(),
            reach == frontier(embeddings@.take(i as int), len as int),
            kept@ == taken(embeddings@.take(i as int), len as int),
        decreases embeddings.len() - i,
    {
        let e = &embeddings[i];
        proof {
            assert(embeddings@.take(i + 1).drop_last() =~= embeddings@.take(i as int));
            assert(embeddings@.take(i + 1).last() == embeddings@[i as int]);
        }
        if reach <= e.start && e.start < e.end && e.end <= len {
            kept.push(
                Embedding {
                    start: e.start,
                    end: e.end,
                    language: e.language.clone(),
                    include_children: e.include_children,
                },
            );
            reach = e.end;
        }
        i += 1;
    }
    proof {
        assert(embeddings@.take(embeddings.len() as int) =~= embeddings@);
        lemma_taken_in_order(embeddings@, len as int);
    }
    kept
}

/// Whether the embeddings lie in order within a text of `len` bytes.
pub fn is_in_order(embeddings: &Vec<Embedding>, len: usize) -> (ordered: bool)
    ensures
        ordered == in_order(embeddings@, len as int),
{
    let mut reach: usize = 0;
    let mut i: usize = 0;
    let ghost mut holder: int = -1;
    while i < embeddings.len()
        invariant
            i <= embeddings.len(),
            in_order(embeddings@.take(i as int), len as int),
            forall|k: int| 0 <= k < i ==> (#[trigger] embeddings@[k]).end <= reach,
            -1 <= holder < i,
            holder == -1 ==> reach == 0,
            holder >= 0 ==> embeddings@[holder].end == reach,
        decreases embeddings.len() - i,
    {
        let e = &embeddings[i];
        if !(reach <= e.start && e.start < e.end && e.end <= len) {
            proof {
                if in_order(embeddings@, len as int) {
                    assert(fits(embeddings@[i as int], 0, len as int));
                    if holder >= 0 {
                        assert(clear_of(embeddings@, holder, i as int));
                    }
                }
            }
            return false;
        }
        proof {
            let before = embeddings@.take(i as int);
            let now = embeddings@.take(i + 1);
            assert forall|j: int, k: int| 0 <= j < k < now.len() implies #[trigger] clear_of(now, j, k) by {
                if k < i {
                    assert(clear_of(before, j, k));
                } else {
                    assert(embeddings@[j].end <= reach);
                }
            }
            assert forall|k: int| 0 <= k < now.len() implies fits(#[trigger] now[k], 0, len as int) by {
                if k < i {
                    assert(fits(before[k], 0, len as int));
                }
            }
            holder = i as int;
        }
        reach = e.end;
        i += 1;
    }
    proof {
        assert(embeddings@.take(embeddings.len() as int) =~= embeddings@);
    }
    true
}

/// Whether byte position `p` lies in embedding `k`.
pub open spec fn covers(embeddings: Seq<Embedding>, k: int, p: int) -> bool {
    0 <= k < embeddings.len() && embeddings[k].start <= p < embeddings[k].end
}

/// The stack at byte position `p` of a text once the highlighting of each
/// embedded range has been set into that of the surrounding language.
///
/// Outside every embedding the stack of the surrounding language stands. Inside
/// an embedding the stack of the embedded language stands: alone where the
/// embedding does not include the surrounding captures, and on top of them
/// where it does.
pub open spec fn embedded_layers(
    parent: Seq<Segment>,
    embeddings: Seq<Embedding>,
    children: Seq<Layering>,
    p: int,
) -> Seq<String> {
    if exists|k: int| covers(embeddings, k, p) {
        let k = choose|k: int| covers(embeddings, k, p);
        let inner = layers_at(children[k]@, p - embeddings[k].start);
        if embeddings[k].include_children {
            layers_at(parent, p) + inner
        } else {
            inner
        }
    } else {
        layers_at(parent, p)
    }
}

/// Each embedding has a child, and each child covers the length of its embedding.
pub open spec fn paired(embeddings: Seq<Embedding>, children: Seq<Layering>) -> bool {
    &&& children.len() == embeddings.len()
    &&& forall|k: int|
        0 <= k < embeddings.len() ==> (#[trigger] children[k]).spec_len() == embeddings[k].end
            - embeddings[k].start
}

/// Embeddings in order cover a position at most once.
pub proof fn lemma_covers_once(embeddings: Seq<Embedding>, len: int, j: int, k: int, p: int)
    requires
        in_order(embeddings, len),
        covers(embeddings, j, p),
        covers(embeddings, k, p),
    ensures
        j == k,
{
    if j < k {
        assert(clear_of(embeddings, j, k));
    } else if k < j {
        assert(clear_of(embeddings, k, j));
    }
}

/// Sets the highlighting of each embedded range into that of the surrounding
/// text. `children[k]` is the layering of the bytes of `embeddings[k]`.
///
/// `None` is returned where the embeddings do not lie in order within the
/// parent's text or a child is missing or covers another length.
pub fn embed(parent: Layering, embeddings: &Vec<Embedding>, children: &Vec<Layering>) -> (merged:
    Option<Layering>)
    ensures
        merged is Some <==> in_order(embeddings@, parent.spec_len()) && paired(embeddings@, children@),
        merged matches Some(m) ==> {
            &&& tiles(m@)
            &&& m.spec_len() == parent.spec_len()
            &&& forall|p: int| layers_at(m@, p) == embedded_layers(parent@, embeddings@, children@, p)
        },
{
    let len = parent.len();
    if !is_in_order(embeddings, len) || children.len() != embeddings.len() {
        return None;
    }
    let ghost base = parent@;
    let mut layering = parent;
    let mut k: usize = 0;
    proof {
        use_type_invariant(&layering);
    }
    while k < embeddings.len()
        invariant
            k <= embeddings.len(),
            children.len() == embeddings.len(),
            in_order(embeddings@, len as int),
            paired(embeddings@.take(k as int), children@.take(k as int)),
            tiles(base),
            tiles(layering@),
            layering.spec_len() == len,
            forall|p: int|
                layers_at(layering@, p) == embedded_layers(
                    base,
                    embeddings@.take(k as int),
                    children@.take(k as int),
                    p,
                ),
        decreases embeddings.len() - k,
    {
        let e = &embeddings[k];
        let ghost under = layering@;
        let ghost done = embeddings@.take(k as int);
        let ghost now = embeddings@.take(k + 1);
        let ghost had = children@.take(k as int);
        let ghost have = children@.take(k + 1);
        proof {
            assert(fits(embeddings@[k as int], 0, len as int));
        }
        match layering.splice(e.start, e.end, e.include_children, &children[k]) {
            Some(merged) => {
                proof {
                    assert(paired(now, have)) by {
                        assert forall|i: int| 0 <= i < now.len() implies (#[trigger] have[i]).spec_len()
                            == now[i].end - now[i].start by {
                            if i < k {
                                assert(had[i].spec_len() == done[i].end - done[i].start);
                            }
                        }
                    }
                    assert forall|p: int| layers_at(merged@, p) == embedded_layers(base, now, have, p) by {
                        if e.start <= p < e.end {
                            assert(covers(now, k as int, p));
                            let c = choose|c: int| covers(now, c, p);
                            assert(covers(embeddings@, c, p));
                            assert(covers(embeddings@, k as int, p));
                            lemma_covers_once(embeddings@, len as int, c, k as int, p);
                            if exists|j: int| covers(done, j, p) {
                                let j = choose|j: int| covers(done, j, p);
                                assert(covers(embeddings@, j, p));
                                lemma_covers_once(embeddings@, len as int, j, k as int, p);
                            }
                        } else {
                            if exists|j: int| covers(now, j, p) {
                                let j = choose|j: int| covers(now, j, p);
                                assert(covers(done, j, p));
                                let i = choose|i: int| covers(done, i, p);
                                assert(covers(embeddings@, i, p));
                                assert(covers(embeddings@, j, p));
                                lemma_covers_once(embeddings@, len as int, i, j, p);
                            } else {
                                if exists|j: int| covers(done, j, p) {
                                    let j = choose|j: int| covers(done, j, p);
                                    assert(covers(now, j, p));
                                }
                            }
                        }
                    }
                }
                layering = merged;
            },
            None => {
                proof {
                    if paired(embeddings@, children@) {
                        assert(children@[k as int].spec_len() == embeddings@[k as int].end
                            - embeddings@[k as int].start);
                    }
                }
                return None;
            },
        }
        k += 1;
    }
    proof {
        assert(embeddings@.take(embeddings.len() as int) =~= embeddings@);
        assert(children@.take(children.len() as int) =~= children@);
    }
    Some(layering)
}

/// Inside an embedding that does not include the surrounding captures, the
/// stack is that of the embedded language alone: no capture of the
/// surrounding language is in force anywhere in the range.
pub proof fn law_embedding_replaces(
    parent: Seq<Segment>,
    embeddings: Seq<Embedding>,
    children: Seq<Layering>,
    len: int,
    k: int,
    p: int,
)
    requires
        in_order(embeddings, len),
        covers(embeddings, k, p),
        !embeddings[k].include_children,
    ensures
        embedded_layers(parent, embeddings, children, p) == layers_at(
            children[k]@,
            p - embeddings[k].start,
        ),
{
    let chosen = choose|c: int| covers(embeddings, c, p);
    lemma_covers_once(embeddings, len, chosen, k, p);
}

/// Inside an embedding that includes the surrounding captures, the captures
/// of the surrounding language stay in force as the outermost ones, and those
/// of the embedded language lie inside them.
pub proof fn law_embedding_nests(
    parent: Seq<Segment>,
    embeddings: Seq<Embedding>,
    children: Seq<Layering>,
    len: int,
    k: int,
    p: int,
)
    requires
        in_order(embeddings, len),
        covers(embeddings, k, p),
        embeddings[k].include_children,
    ensures
        embedded_layers(parent, embeddings, children, p) == layers_at(parent, p) + layers_at(
            children[k]@,
            p - embeddings[k].start,
        ),
{
    let chosen = choose|c: int| covers(embeddings, c, p);
    lemma_covers_once(embeddings, len, chosen, k, p);
}

/// Outside every embedding the highlighting of the surrounding language stands
/// as it was.
pub proof fn law_embedding_spares(
    parent: Seq<Segment>,
    embeddings: Seq<Embedding>,
    children: Seq<Layering>,
    p: int,
)
    requires
        forall|k: int| !covers(embeddings, k, p),
    ensures
        embedded_layers(parent, embeddings, children, p) == layers_at(parent, p),
{
}

} // verus!
