//! What it means to highlight a text together with everything embedded in it.
//!
//! The grammars are code of the library's users, so what a text comes to is
//! stated as a relation: over the answers that each grammar may give when it
//! is asked, this is the highlighting that comes of them.

use crate::engine::{HighlightConfig, Tree};
use crate::grammar::{Embedding, Grammar, Scan};
use crate::injection::{
    covers, embedded_layers, fits, in_order, law_embedding_nests, law_embedding_replaces,
    law_embedding_spares, paired,
};
use crate::layers::{layers_at, tiles, Layering};
use crate::offsets::units_total;
use crate::wire::ParseError;
use vstd::prelude::*;
use vstd::utf8::is_char_boundary;

verus! {

/// The number of languages that are not marked in `active`.
pub open spec fn idle(active: Seq<bool>) -> nat
    decreases active.len(),
{
    if active.len() == 0 {
        0
    } else {
        idle(active.drop_last()) + if active.last() {
            0nat
        } else {
            1nat
        }
    }
}

/// Marking a language that was not marked leaves one language fewer unmarked.
pub proof fn lemma_idle_marked(active: Seq<bool>, i: int)
    requires
        0 <= i < active.len(),
        !active[i],
    ensures
        idle(active.update(i, true)) + 1 == idle(active),
    decreases active.len(),
{
    let marked = active.update(i, true);
    if i == active.len() - 1 {
        assert(marked.drop_last() =~= active.drop_last());
    } else {
        assert(marked.drop_last() =~= active.drop_last().update(i, true));
        lemma_idle_marked(active.drop_last(), i);
    }
}

/// The identifiers of the languages of `configs`, place by place.
pub open spec fn languages_of<G: Grammar>(configs: Seq<HighlightConfig<G>>) -> Seq<Seq<char>> {
    Seq::new(configs.len(), |i: int| configs[i].language_id@)
}

/// The first place of `language` in `loaded`, if it has one.
pub open spec fn first_of(loaded: Seq<Seq<char>>, language: Seq<char>) -> Option<int> {
    if exists|i: int| 0 <= i < loaded.len() && loaded[i] == language {
        Some(
            choose|i: int|
                0 <= i < loaded.len() && loaded[i] == language && forall|j: int|
                    0 <= j < i ==> loaded[j] != language,
        )
    } else {
        None
    }
}

/// Marks for `count` languages of which only the one at `target` is marked.
pub open spec fn only_marked(count: nat, target: int) -> Seq<bool> {
    Seq::new(count, |i: int| i == target)
}

/// The range of `e` cuts a text of the bytes `bytes` between characters at
/// both of its ends.
pub open spec fn on_boundaries(bytes: Seq<u8>, e: Embedding) -> bool {
    is_char_boundary(bytes, e.end as int) && is_char_boundary(
        bytes.subrange(0, e.end as int),
        e.start as int,
    )
}

/// The range of `e` is the whole of a text of `len` bytes.
pub open spec fn is_whole(e: Embedding, len: int) -> bool {
    e.start == 0 && e.end == len
}

/// What becomes of an embedded range: `None` where it stays plain, else the
/// place of the plugin that highlights it and the marks under which it does.
///
/// The range stays plain where no plugin serves its language, where it is the
/// whole text and its language is already being expanded on that text, and
/// where it does not cut the text between characters. A range that is the
/// whole text is expanded with its language marked in addition; a smaller
/// range starts over with its language marked alone.
pub open spec fn expansion(served: Option<int>, whole: bool, cut: bool, active: Seq<bool>) -> Option<
    (int, Seq<bool>),
> {
    match served {
        None => None,
        Some(target) => if !(0 <= target < active.len()) {
            None
        } else if whole && active[target] {
            None
        } else if !cut {
            None
        } else if whole {
            Some((target, active.update(target, true)))
        } else {
            Some((target, only_marked(active.len(), target)))
        },
    }
}

/// Decides what becomes of an embedded range: see [`expansion`].
pub fn plan_expansion(served: Option<usize>, whole: bool, cut: bool, active: &Vec<bool>) -> (plan:
    Option<(usize, Vec<bool>)>)
    ensures
        plan is Some <==> expansion(
            match served {
                Some(t) => Some(t as int),
                None => None,
            },
            whole,
            cut,
            active@,
        ) is Some,
        plan matches Some(p) ==> expansion(Some(served->Some_0 as int), whole, cut, active@) == Some(
            (p.0 as int, p.1@),
        ),
{
    let target = match served {
        None => {
            return None;
        },
        Some(target) => target,
    };
    if target >= active.len() || (whole && active[target]) || !cut {
        return None;
    }
    let mut marks: Vec<bool> = Vec::new();
    let mut i: usize = 0;
    while i < active.len()
        invariant
            i <= active.len(),
            target < active@.len(),
            marks@.len() == i,
            forall|k: int|
                0 <= k < i ==> #[trigger] marks@[k] == (k == target || (whole && active@[k])),
        decreases active.len() - i,
    {
        marks.push(i == target || (whole && active[i]));
        i += 1;
    }
    proof {
        if whole {
            assert(marks@ =~= active@.update(target as int, true));
        } else {
            assert(marks@ =~= only_marked(active@.len(), target as int));
        }
    }
    Some((target, marks))
}

/// The layering is that of `len` bytes of plain text.
pub open spec fn is_plain(layering: Layering, len: int) -> bool {
    &&& layering.spec_len() == len
    &&& tiles(layering@)
    &&& forall|p: int| layers_at(layering@, p) == Seq::<String>::empty()
}

/// Parsing a text of the bytes `bytes` under `config` may come to `tree`.
///
/// The grammar is asked with the text and answers. Where it fails, or where the
/// text is longer than 32-bit offsets can address, there is no tree.
/// Otherwise the tree is what the answer grows into.
pub open spec fn answers<G: Grammar>(
    config: HighlightConfig<G>,
    bytes: Seq<u8>,
    tree: Option<Tree>,
) -> bool {
    exists|scanned: Result<Scan, ParseError>| #[trigger]
        config.admits(bytes, scanned) && match scanned {
            Err(_) => tree is None,
            Ok(scan) => if units_total(bytes) > u32::MAX {
                tree is None
            } else {
                tree matches Some(own) && config.grows(bytes, scan, own)
            },
        }
}

/// `merged` is the tree `own` with the highlighting `children[k]` of each of
/// its embedded ranges set into it.
pub open spec fn joins(own: Tree, children: Seq<Layering>, merged: (Layering, Seq<Embedding>)) -> bool {
    &&& merged.1 == own.embeddings@
    &&& paired(merged.1, children)
    &&& merged.0.spec_len() == own.layering.spec_len()
    &&& tiles(merged.0@)
    &&& forall|p: int|
        layers_at(merged.0@, p) == embedded_layers(own.layering@, merged.1, children, p)
}

/// `outcome` is what the parse `tree` of a text comes to with the expansions
/// `children` of its embedded ranges: nothing where there is no tree, and
/// else the tree with the children set into it.
pub open spec fn comes_to(
    tree: Option<Tree>,
    children: Seq<Layering>,
    outcome: Option<(Layering, Seq<Embedding>)>,
) -> bool {
    match tree {
        None => outcome is None && children.len() == 0,
        Some(own) => outcome is Some && joins(own, children, outcome->Some_0),
    }
}

/// Highlighting a text of the bytes `bytes` with the plugin at `plugin`, and
/// everything embedded in it, may come to `outcome`: to the merged layering
/// and the embedded ranges of the text's own language, or to `None` where the
/// text cannot be parsed. `active` marks the languages that are being expanded
/// on this very text further up.
///
/// Where the parse of the text comes to no tree, the outcome is `None`.
/// Otherwise each embedded range of the tree is expanded, and the outcome is
/// the tree with the expansions set into it.
pub open spec fn resolves_to<G: Grammar>(
    configs: Seq<HighlightConfig<G>>,
    plugin: int,
    bytes: Seq<u8>,
    active: Seq<bool>,
    outcome: Option<(Layering, Seq<Embedding>)>,
) -> bool
    decreases bytes.len(), idle(active), 1nat,
{
    &&& 0 <= plugin < configs.len()
    &&& exists|tree: Option<Tree>, children: Seq<Layering>| #[trigger]
        comes_to(tree, children, outcome) && answers(configs[plugin], bytes, tree) && forall|k: int|
            0 <= k < children.len() ==> expands_to(
                configs,
                bytes,
                tree->Some_0.embeddings@[k],
                active,
                #[trigger] children[k],
            )
}

/// `child` is what an expanded range of `len` bytes comes to where its bytes
/// resolve to `inner`: the layering of `inner`, or plain text where the bytes
/// cannot be parsed.
pub open spec fn settles(inner: Option<(Layering, Seq<Embedding>)>, child: Layering, len: int) -> bool {
    match inner {
        None => is_plain(child, len),
        Some(merged) => child == merged.0,
    }
}

/// Expanding the range `e` of a text of the bytes `bytes` may come to the
/// layering `child` of the bytes of the range.
///
/// Where the range stays plain (see [`expansion`]), `child` is plain. Where it
/// is expanded, the bytes of the range are highlighted as a text of their own,
/// and `child` is what that comes to, or plain where they cannot be parsed.
pub open spec fn expands_to<G: Grammar>(
    configs: Seq<HighlightConfig<G>>,
    bytes: Seq<u8>,
    e: Embedding,
    active: Seq<bool>,
    child: Layering,
) -> bool
    decreases bytes.len(), idle(active), 0nat,
    via expands_decreases::<G>
{
    let len = e.end - e.start;
    &&& fits(e, 0, bytes.len() as int)
    &&& active.len() == configs.len()
    &&& match expansion(
        first_of(languages_of(configs), e.language@),
        is_whole(e, bytes.len() as int),
        on_boundaries(bytes, e),
        active,
    ) {
        None => is_plain(child, len),
        Some((target, marks)) => exists|inner: Option<(Layering, Seq<Embedding>)>| #[trigger]
            settles(inner, child, len) && resolves_to(
                configs,
                target,
                bytes.subrange(e.start as int, e.end as int),
                marks,
                inner,
            ),
    }
}

/// The highlighting that a text comes to covers the whole text, with no gap
/// and no byte twice, whatever its embedded ranges came to; and the embedded
/// ranges lie in text order within the text, without overlap. A text that
/// comes to anything is no longer than 32-bit offsets can address.
pub proof fn law_resolved_covers<G: Grammar>(
    configs: Seq<HighlightConfig<G>>,
    plugin: int,
    bytes: Seq<u8>,
    active: Seq<bool>,
    merged: (Layering, Seq<Embedding>),
)
    requires
        resolves_to(configs, plugin, bytes, active, Some(merged)),
    ensures
        merged.0.spec_len() == bytes.len(),
        tiles(merged.0@),
        in_order(merged.1, bytes.len() as int),
        units_total(bytes) <= u32::MAX,
{
}

/// The highlighting `merged` of a text is made of the tree `own` of the text
/// and of the expansions `children` of the embedded ranges of that tree.
pub open spec fn made_of<G: Grammar>(
    configs: Seq<HighlightConfig<G>>,
    plugin: int,
    bytes: Seq<u8>,
    active: Seq<bool>,
    own: Tree,
    children: Seq<Layering>,
    merged: (Layering, Seq<Embedding>),
) -> bool {
    &&& answers(configs[plugin], bytes, Some(own))
    &&& joins(own, children, merged)
    &&& forall|k: int|
        0 <= k < children.len() ==> expands_to(
            configs,
            bytes,
            own.embeddings@[k],
            active,
            #[trigger] children[k],
        )
}

/// Every highlighting that a text comes to is made of a tree of the text and
/// of expansions of its embedded ranges, which lie in order within the text.
pub proof fn lemma_parts<G: Grammar>(
    configs: Seq<HighlightConfig<G>>,
    plugin: int,
    bytes: Seq<u8>,
    active: Seq<bool>,
    merged: (Layering, Seq<Embedding>),
) -> (parts: (Tree, Seq<Layering>))
    requires
        resolves_to(configs, plugin, bytes, active, Some(merged)),
    ensures
        made_of(configs, plugin, bytes, active, parts.0, parts.1, merged),
        in_order(merged.1, bytes.len() as int),
{
    let (tree, children) = choose|tree: Option<Tree>, children: Seq<Layering>| #[trigger]
        comes_to(tree, children, Some(merged)) && answers(configs[plugin], bytes, tree) && forall|
            k: int,
        |
            0 <= k < children.len() ==> expands_to(
                configs,
                bytes,
                tree->Some_0.embeddings@[k],
                active,
                #[trigger] children[k],
            );
    (tree->Some_0, children)
}

/// In the highlighting that a text comes to, inside an embedded range that
/// does not include the surrounding captures, the captures are those of the
/// expansion of the range alone: no capture of the language of the text is in
/// force anywhere in the range.
pub proof fn law_resolved_replaces<G: Grammar>(
    configs: Seq<HighlightConfig<G>>,
    plugin: int,
    bytes: Seq<u8>,
    active: Seq<bool>,
    merged: (Layering, Seq<Embedding>),
    k: int,
    p: int,
) -> (parts: (Tree, Seq<Layering>))
    requires
        resolves_to(configs, plugin, bytes, active, Some(merged)),
        covers(merged.1, k, p),
        !merged.1[k].include_children,
    ensures
        made_of(configs, plugin, bytes, active, parts.0, parts.1, merged),
        layers_at(merged.0@, p) == layers_at(parts.1[k]@, p - merged.1[k].start),
{
    let parts = lemma_parts(configs, plugin, bytes, active, merged);
    law_embedding_replaces(parts.0.layering@, merged.1, parts.1, bytes.len() as int, k, p);
    parts
}

/// In the highlighting that a text comes to, inside an embedded range that
/// includes the surrounding captures, the captures of the language of the
/// text stay in force as the outermost ones, and those of the expansion of
/// the range lie inside them.
pub proof fn law_resolved_nests<G: Grammar>(
    configs: Seq<HighlightConfig<G>>,
    plugin: int,
    bytes: Seq<u8>,
    active: Seq<bool>,
    merged: (Layering, Seq<Embedding>),
    k: int,
    p: int,
) -> (parts: (Tree, Seq<Layering>))
    requires
        resolves_to(configs, plugin, bytes, active, Some(merged)),
        covers(merged.1, k, p),
        merged.1[k].include_children,
    ensures
        made_of(configs, plugin, bytes, active, parts.0, parts.1, merged),
        layers_at(merged.0@, p) == layers_at(parts.0.layering@, p) + layers_at(
            parts.1[k]@,
            p - merged.1[k].start,
        ),
{
    let parts = lemma_parts(configs, plugin, bytes, active, merged);
    law_embedding_nests(parts.0.layering@, merged.1, parts.1, bytes.len() as int, k, p);
    parts
}

/// In the highlighting that a text comes to, outside every embedded range the
/// captures of the language of the text stand as its own parse gave them.
pub proof fn law_resolved_spares<G: Grammar>(
    configs: Seq<HighlightConfig<G>>,
    plugin: int,
    bytes: Seq<u8>,
    active: Seq<bool>,
    merged: (Layering, Seq<Embedding>),
    p: int,
) -> (parts: (Tree, Seq<Layering>))
    requires
        resolves_to(configs, plugin, bytes, active, Some(merged)),
        forall|k: int| !covers(merged.1, k, p),
    ensures
        made_of(configs, plugin, bytes, active, parts.0, parts.1, merged),
        layers_at(merged.0@, p) == layers_at(parts.0.layering@, p),
{
    let parts = lemma_parts(configs, plugin, bytes, active, merged);
    law_embedding_spares(parts.0.layering@, merged.1, parts.1, p);
    parts
}

/// A range that is not to be expanded stays plain: no capture is in force
/// anywhere in it.
pub proof fn law_unexpanded_stays_plain<G: Grammar>(
    configs: Seq<HighlightConfig<G>>,
    bytes: Seq<u8>,
    e: Embedding,
    active: Seq<bool>,
    child: Layering,
)
    requires
        expands_to(configs, bytes, e, active, child),
        expansion(
            first_of(languages_of(configs), e.language@),
            is_whole(e, bytes.len() as int),
            on_boundaries(bytes, e),
            active,
        ) is None,
    ensures
        is_plain(child, e.end - e.start),
{
}

/// A language that hands the whole of a text to itself is not entered a
/// second time on that text: the range stays plain. This holds of the
/// language that a text is highlighted as, and of every language that is being
/// expanded on the text further up.
pub proof fn law_self_injection_stays_plain<G: Grammar>(
    configs: Seq<HighlightConfig<G>>,
    bytes: Seq<u8>,
    e: Embedding,
    active: Seq<bool>,
    child: Layering,
)
    requires
        expands_to(configs, bytes, e, active, child),
        is_whole(e, bytes.len() as int),
        first_of(languages_of(configs), e.language@) matches Some(target) && 0 <= target
            < active.len() && active[target],
    ensures
        is_plain(child, e.end - e.start),
{
}

/// A text whose parse comes to the tree `own`, and whose embedded ranges
/// expand to `children`, resolves to the tree with the children set into it.
pub proof fn lemma_resolved<G: Grammar>(
    configs: Seq<HighlightConfig<G>>,
    plugin: int,
    bytes: Seq<u8>,
    active: Seq<bool>,
    own: Tree,
    children: Seq<Layering>,
    merged: (Layering, Seq<Embedding>),
)
    requires
        0 <= plugin < configs.len(),
        answers(configs[plugin], bytes, Some(own)),
        joins(own, children, merged),
        forall|k: int|
            0 <= k < children.len() ==> expands_to(
                configs,
                bytes,
                own.embeddings@[k],
                active,
                #[trigger] children[k],
            ),
    ensures
        resolves_to(configs, plugin, bytes, active, Some(merged)),
{
    assert(comes_to(Some(own), children, Some(merged)));
}

/// A text whose parse comes to no tree resolves to nothing.
pub proof fn lemma_unresolved<G: Grammar>(
    configs: Seq<HighlightConfig<G>>,
    plugin: int,
    bytes: Seq<u8>,
    active: Seq<bool>,
)
    requires
        0 <= plugin < configs.len(),
        answers(configs[plugin], bytes, None),
    ensures
        resolves_to(configs, plugin, bytes, active, None),
{
    assert(comes_to(None, Seq::<Layering>::empty(), None));
}

/// A range that is expanded comes to what its bytes resolve to, or stays plain
/// where they cannot be parsed.
pub proof fn lemma_expanded<G: Grammar>(
    configs: Seq<HighlightConfig<G>>,
    bytes: Seq<u8>,
    e: Embedding,
    active: Seq<bool>,
    inner: Option<(Layering, Seq<Embedding>)>,
    child: Layering,
)
    requires
        fits(e, 0, bytes.len() as int),
        active.len() == configs.len(),
        expansion(
            first_of(languages_of(configs), e.language@),
            is_whole(e, bytes.len() as int),
            on_boundaries(bytes, e),
            active,
        ) matches Some(plan) && resolves_to(
            configs,
            plan.0,
            bytes.subrange(e.start as int, e.end as int),
            plan.1,
            inner,
        ),
        settles(inner, child, e.end - e.start),
    ensures
        expands_to(configs, bytes, e, active, child),
{
    assert(settles(inner, child, e.end - e.start));
}

#[via_fn]
proof fn expands_decreases<G: Grammar>(
    configs: Seq<HighlightConfig<G>>,
    bytes: Seq<u8>,
    e: Embedding,
    active: Seq<bool>,
    child: Layering,
) {
    if fits(e, 0, bytes.len() as int) && active.len() == configs.len() {
        let served = first_of(languages_of(configs), e.language@);
        let whole = is_whole(e, bytes.len() as int);
        match expansion(served, whole, on_boundaries(bytes, e), active) {
            None => {},
            Some((target, marks)) => {
                if whole {
                    lemma_idle_marked(active, target);
                    assert(bytes.subrange(e.start as int, e.end as int) =~= bytes);
                }
            },
        }
    }
}

} // verus!
