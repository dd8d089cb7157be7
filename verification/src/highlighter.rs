//! The host side: the loaded plugins, and the resolver that highlights a text
//! together with everything embedded in it.
//!
//! Highlighting a text means parsing it with the plugin of its language,
//! then, for each range that the language hands to another one, highlighting
//! that range with the other language's plugin in a session of its own, and
//! setting the outcome into the surrounding highlighting. A range whose
//! language is not loaded, or that is the whole of a text on which its
//! language is already being expanded, stays plain. What all of this comes to
//! is stated in [`crate::resolver`], over the answers of the grammars.

use crate::boundary::{injections_sorted, spans_sorted, to_parse_result, wire_injections, wire_spans};
use crate::engine::{HighlightConfig, Tree};
use crate::events::{events_of, render, HighlightEvent};
use crate::grammar::{Embedding, Grammar, Scan};
use crate::injection::{embed, fits, in_order, paired};
use crate::layers::Layering;
use crate::names::{distinct, is_known, known};
use crate::offsets::units_total;
use crate::resolver::{
    answers, expands_to, expansion, first_of, idle, is_plain, is_whole, joins, languages_of,
    lemma_expanded, lemma_idle_marked, lemma_resolved, law_resolved_covers, lemma_unresolved,
    on_boundaries, only_marked,
    plan_expansion, resolves_to,
};
use crate::runtime::{fresh_session, parse_step, scan_step, text_step, PluginRuntime, RuntimeError};
use crate::spans::{reads_flat, ByteSpan};
use crate::wire::{is_version_compatible, ParseError, ParseResult, WIRE_VERSION};
use vstd::prelude::*;
use vstd::string::StringSliceAdditionalSpecFns;
use vstd::utf8::encode_utf8;

verus! {

/// Why the host did not highlight a text or load a plugin.
#[derive(Debug)]
pub enum HighlightError {
    /// The plugin was built for another version of the wire protocol.
    VersionMismatch,
    /// No plugin is loaded for the language.
    UnsupportedLanguage,
    /// A plugin has no session identifier left to hand out.
    ResourceExhausted,
    /// The text could not be parsed.
    Scan(ParseError),
}

/// The loaded plugins of a host, one for each language.
pub struct Highlighter<G: Grammar> {
    plugins: Vec<PluginRuntime<G>>,
}

impl<G: Grammar> Highlighter<G> {
    /// Every loaded plugin is in order.
    pub closed spec fn wf(&self) -> bool {
        forall|i: int| 0 <= i < self.plugins@.len() ==> (#[trigger] self.plugins@[i]).wf()
    }

    /// The configurations of the loaded plugins, in the order of loading.
    pub closed spec fn configs(&self) -> Seq<HighlightConfig<G>> {
        Seq::new(self.plugins@.len(), |i: int| self.plugins@[i].spec_config())
    }

    /// The identifiers of the loaded languages, in the order of loading.
    pub open spec fn languages(&self) -> Seq<Seq<char>> {
        languages_of(self.configs())
    }

    /// The place of the plugin that serves `language`: the first loaded one
    /// with that identifier, if there is one.
    pub open spec fn serving(&self, language: Seq<char>) -> Option<int> {
        first_of(self.languages(), language)
    }

    /// The number of session identifiers that each loaded plugin has handed
    /// out, in the order of loading.
    pub closed spec fn issued(&self) -> Seq<nat> {
        Seq::new(self.plugins@.len(), |i: int| self.plugins@[i]@.issued)
    }

    /// Some loaded plugin has handed out every session identifier it has.
    pub open spec fn exhausted(&self) -> bool {
        exists|i: int| 0 <= i < self.issued().len() && #[trigger] self.issued()[i] >= u32::MAX
    }

    /// The languages that each loaded plugin declares it may embed.
    pub closed spec fn embeds(&self) -> Seq<Seq<String>> {
        Seq::new(self.plugins@.len(), |i: int| self.plugins@[i].spec_config().injection_languages@)
    }

    /// Some loaded plugin declares that it may embed the language `name`.
    pub open spec fn declares(&self, name: Seq<char>) -> bool {
        exists|i: int, j: int|
            0 <= i < self.embeds().len() && 0 <= j < self.embeds()[i].len() && (
            #[trigger] self.embeds()[i][j])@ == name
    }

    /// A host with no plugin.
    pub fn new() -> (host: Self)
        ensures
            host.wf(),
            host.configs() == Seq::<HighlightConfig<G>>::empty(),
    {
        let host = Highlighter { plugins: Vec::new() };
        proof {
            assert(host.configs() =~= Seq::<HighlightConfig<G>>::empty());
        }
        host
    }

    /// Loads the plugin of `config`, which was built for `version` of the wire
    /// protocol.
    ///
    /// A plugin of another version than the host's is refused with
    /// `VersionMismatch` and nothing changes. Any other plugin is loaded after
    /// those that are there.
    pub fn load(&mut self, config: HighlightConfig<G>, version: u32) -> (loaded: Result<
        (),
        HighlightError,
    >)
        requires
            old(self).wf(),
        ensures
            final(self).wf(),
            loaded is Ok <==> version == WIRE_VERSION,
            loaded is Ok ==> final(self).configs() == old(self).configs().push(config)
                && final(self).embeds() == old(self).embeds().push(config.injection_languages@),
            loaded is Err ==> loaded->Err_0 is VersionMismatch && final(self).configs() == old(
                self,
            ).configs() && final(self).embeds() == old(self).embeds(),
    {
        if !is_version_compatible(version) {
            return Err(HighlightError::VersionMismatch);
        }
        let ghost before = self.plugins@;
        let runtime = PluginRuntime::new(config);
        self.plugins.push(runtime);
        proof {
            assert forall|i: int| 0 <= i < self.plugins@.len() implies (
            #[trigger] self.plugins@[i]).wf() by {
                if i < before.len() {
                    assert(self.plugins@[i] == before[i]);
                }
            }
            assert(self.configs() =~= old(self).configs().push(config));
            assert(self.embeds() =~= old(self).embeds().push(config.injection_languages@));
        }
        Ok(())
    }

    /// The languages that a loaded plugin may embed and that no loaded plugin
    /// serves: what is still to be loaded before every embedded range can be
    /// highlighted. Each one is named once.
    pub fn missing_languages(&self) -> (missing: Vec<String>)
        ensures
            distinct(missing@),
            forall|k: int|
                0 <= k < missing.len() ==> self.declares((#[trigger] missing@[k])@) && self.serving(
                    missing@[k]@,
                ) is None,
            forall|name: Seq<char>|
                self.declares(name) && self.serving(name) is None ==> #[trigger] known(
                    missing@,
                    name,
                ),
    {
        let ghost embeds = self.embeds();
        let mut missing: Vec<String> = Vec::new();
        let mut i: usize = 0;
        while i < self.plugins.len()
            invariant
                i <= self.plugins.len(),
                embeds == self.embeds(),
                embeds.len() == self.plugins@.len(),
                distinct(missing@),
                forall|k: int|
                    0 <= k < missing.len() ==> self.declares((#[trigger] missing@[k])@)
                        && self.serving(missing@[k]@) is None,
                forall|a: int, b: int|
                    0 <= a < i && 0 <= b < embeds[a].len() && self.serving(
                        (#[trigger] embeds[a][b])@,
                    ) is None ==> known(missing@, embeds[a][b]@),
            decreases self.plugins.len() - i,
        {
            let declared = &self.plugins[i].config().injection_languages;
            proof {
                assert(declared@ == embeds[i as int]);
            }
            let mut j: usize = 0;
            while j < declared.len()
                invariant
                    i < self.plugins.len(),
                    j <= declared.len(),
                    embeds == self.embeds(),
                    embeds.len() == self.plugins@.len(),
                    declared@ == embeds[i as int],
                    distinct(missing@),
                    forall|k: int|
                        0 <= k < missing.len() ==> self.declares((#[trigger] missing@[k])@)
                            && self.serving(missing@[k]@) is None,
                    forall|a: int, b: int|
                        0 <= a < i && 0 <= b < embeds[a].len() && self.serving(
                            (#[trigger] embeds[a][b])@,
                        ) is None ==> known(missing@, embeds[a][b]@),
                    forall|b: int|
                        0 <= b < j && self.serving((#[trigger] declared@[b])@) is None ==> known(
                            missing@,
                            declared@[b]@,
                        ),
                decreases declared.len() - j,
            {
                let name = &declared[j];
                if self.lookup(name.as_str()).is_none() && !is_known(&missing, name) {
                    let ghost before = missing@;
                    missing.push(name.clone());
                    proof {
                        let last = before.len() as int;
                        assert(missing@[last]@ == name@);
                        assert(embeds[i as int][j as int]@ == name@);
                        assert forall|n: Seq<char>| known(before, n) implies known(missing@, n) by {
                            let w = choose|w: int| 0 <= w < before.len() && (#[trigger] before[w])@ == n;
                            assert(missing@[w]@ == n);
                        }
                        assert forall|x: int, y: int| 0 <= x < y < missing@.len() implies (
                        #[trigger] missing@[x])@ != (#[trigger] missing@[y])@ by {
                            if y == last {
                                assert(before[x]@ != name@);
                            } else {
                                assert(before[x]@ != before[y]@);
                            }
                        }
                        assert forall|k: int| 0 <= k < missing.len() implies self.declares(
                            (#[trigger] missing@[k])@,
                        ) && self.serving(missing@[k]@) is None by {
                            if k < last {
                                assert(missing@[k] == before[k]);
                            }
                        }
                    }
                }
                j += 1;
            }
            i += 1;
        }
        proof {
            assert forall|name: Seq<char>| self.declares(name) && self.serving(name) is None implies #[trigger] known(
                missing@,
                name,
            ) by {
                let (a, b) = choose|a: int, b: int|
                    0 <= a < self.embeds().len() && 0 <= b < self.embeds()[a].len() && (
                    #[trigger] self.embeds()[a][b])@ == name;
                assert(known(missing@, embeds[a][b]@));
            }
        }
        missing
    }

    /// The number of loaded plugins.
    pub fn len(&self) -> (count: usize)
        ensures
            count == self.languages().len(),
    {
        self.plugins.len()
    }

    /// The place of the plugin that serves `language`, if one is loaded.
    pub fn lookup(&self, language: &str) -> (place: Option<usize>)
        ensures
            place is Some <==> self.serving(language@) is Some,
            place matches Some(i) ==> self.serving(language@) == Some(i as int) && i
                < self.languages().len() && self.languages()[i as int] == language@,
    {
        let wanted = language.to_owned();
        let ghost loaded = self.languages();
        let mut i: usize = 0;
        while i < self.plugins.len()
            invariant
                i <= self.plugins.len(),
                loaded == self.languages(),
                loaded.len() == self.plugins@.len(),
                wanted@ == language@,
                forall|j: int| 0 <= j < i ==> loaded[j] != language@,
            decreases self.plugins.len() - i,
        {
            let config = self.plugins[i].config();
            proof {
                assert(loaded[i as int] == self.plugins@[i as int].spec_config().language_id@);
            }
            if config.language_id == wanted {
                proof {
                    let chosen = choose|c: int|
                        0 <= c < loaded.len() && loaded[c] == language@ && forall|j: int|
                            0 <= j < c ==> loaded[j] != language@;
                    if chosen < i {
                        assert(loaded[chosen] != language@);
                    } else if i < chosen {
                        assert(loaded[i as int] != language@);
                    }
                }
                return Some(i);
            }
            i += 1;
        }
        None
    }
}

impl<G: Grammar> Highlighter<G> {
    /// After a change to the plugin at `at` that left it in order and with
    /// its configuration, the host is in order and has the same configurations.
    proof fn lemma_kept(&self, before: Seq<PluginRuntime<G>>, at: int)
        requires
            0 <= at < before.len(),
            self.plugins@ == before.update(at, self.plugins@[at]),
            self.plugins@[at].wf(),
            self.plugins@[at].spec_config() == before[at].spec_config(),
            forall|i: int| 0 <= i < before.len() ==> (#[trigger] before[i]).wf(),
        ensures
            self.wf(),
            self.configs() == Seq::new(before.len(), |i: int| before[i].spec_config()),
    {
        assert forall|i: int| 0 <= i < self.plugins@.len() implies (#[trigger] self.plugins@[i]).wf() by {
            if i != at {
                assert(self.plugins@[i] == before[i]);
            }
        }
        assert(self.configs() =~= Seq::new(before.len(), |i: int| before[i].spec_config()));
    }

    /// Parses `text` with the plugin at `plugin`, in a session that exists for
    /// this one parse, and hands out the tree.
    fn run_plugin(&mut self, plugin: usize, text: &str) -> (grown: Result<Tree, RuntimeError>)
        requires
            old(self).wf(),
            plugin < old(self).configs().len(),
        ensures
            final(self).wf(),
            final(self).configs() == old(self).configs(),
            grown matches Ok(tree) ==> answers(
                old(self).configs()[plugin as int],
                text.spec_bytes(),
                Some(tree),
            ),
            grown matches Err(RuntimeError::Scan(_)) ==> answers(
                old(self).configs()[plugin as int],
                text.spec_bytes(),
                None,
            ),
            grown matches Err(e) ==> e is Scan || (e is ResourceExhausted && final(self).exhausted()),
    {
        let ghost before = self.plugins@;
        let ghost held = self.configs();
        let ghost config = held[plugin as int];
        let ghost bytes = text.spec_bytes();
        proof {
            assert(before[plugin as int].wf());
        }
        let created = self.plugins[plugin].create_session();
        proof {
            assert(self.plugins@ =~= before.update(plugin as int, self.plugins@[plugin as int]));
            self.lemma_kept(before, plugin as int);
            assert(self.configs() =~= held);
        }
        let id = match created {
            Ok(id) => id,
            Err(_) => {
                proof {
                    assert(self.issued()[plugin as int] >= u32::MAX);
                }
                return Err(RuntimeError::ResourceExhausted);
            },
        };
        let ghost opened = self.plugins@;
        let _ = self.plugins[plugin].set_text(id, text);
        proof {
            assert(self.plugins@ =~= opened.update(plugin as int, self.plugins@[plugin as int]));
            self.lemma_kept(opened, plugin as int);
            assert(self.configs() =~= held);
        }
        let ghost filled = self.plugins@;
        let ghost session = filled[plugin as int]@.sessions[id];
        proof {
            assert(session == text_step(fresh_session(), text@));
            assert(encode_utf8(session.text) == bytes);
        }
        let outcome = self.plugins[plugin].parse(id);
        proof {
            assert(self.plugins@ =~= filled.update(plugin as int, self.plugins@[plugin as int]));
            self.lemma_kept(filled, plugin as int);
            assert(self.configs() =~= held);
        }
        let ghost parsed = self.plugins@;
        let ghost after = parsed[plugin as int]@.sessions[id];
        proof {
            assert(parse_step(config, session, outcome, after));
            let scanned = choose|scanned: Result<Scan, ParseError>| #[trigger]
                config.admits(bytes, scanned) && scan_step(config, session, scanned, outcome, after);
            assert(config.admits(bytes, scanned));
            assert(answers(
                config,
                bytes,
                match outcome {
                    Ok(_) => after.tree,
                    Err(_) => None,
                },
            ));
        }
        let taken = self.plugins[plugin].take_tree(id);
        proof {
            assert(self.plugins@ =~= parsed.update(plugin as int, self.plugins@[plugin as int]));
            self.lemma_kept(parsed, plugin as int);
            assert(self.configs() =~= held);
        }
        let ghost emptied = self.plugins@;
        let _ = self.plugins[plugin].free_session(id);
        proof {
            assert(self.plugins@ =~= emptied.update(plugin as int, self.plugins@[plugin as int]));
            self.lemma_kept(emptied, plugin as int);
            assert(self.configs() =~= held);
        }
        match outcome {
            Ok(_) => match taken {
                Some(tree) => Ok(tree),
                None => unreached(),
            },
            Err(RuntimeError::Scan(e)) => Err(RuntimeError::Scan(e)),
            Err(_) => unreached(),
        }
    }

    /// Highlights `text` with the plugin at `plugin` and everything embedded
    /// in it. `active` marks the languages that are being expanded on this
    /// very text further up.
    fn resolve(&mut self, plugin: usize, text: &str, active: &Vec<bool>) -> (merged: Result<
        (Layering, Vec<Embedding>),
        RuntimeError,
    >)
        requires
            old(self).wf(),
            plugin < old(self).configs().len(),
            active@.len() == old(self).configs().len(),
        ensures
            final(self).wf(),
            final(self).configs() == old(self).configs(),
            merged matches Ok(m) ==> resolves_to(
                old(self).configs(),
                plugin as int,
                text.spec_bytes(),
                active@,
                Some((m.0, m.1@)),
            ),
            merged matches Err(RuntimeError::Scan(_)) ==> resolves_to(
                old(self).configs(),
                plugin as int,
                text.spec_bytes(),
                active@,
                None,
            ),
            merged matches Err(e) ==> e is Scan || (e is ResourceExhausted && final(self).exhausted()),
        decreases text.spec_bytes().len(), idle(active@), 1nat,
    {
        let ghost held = self.configs();
        let ghost bytes = text.spec_bytes();
        let ghost len = bytes.len() as int;
        let tree = match self.run_plugin(plugin, text) {
            Ok(tree) => tree,
            Err(e) => {
                proof {
                    if e is Scan {
                        lemma_unresolved(held, plugin as int, bytes, active@);
                    }
                }
                return Err(e);
            },
        };
        let ghost own = tree;
        let Tree { layering, embeddings, result: _ } = tree;
        proof {
            assert(in_order(embeddings@, len));
            assert(layering.spec_len() == len);
        }
        let mut children: Vec<Layering> = Vec::new();
        let mut k: usize = 0;
        while k < embeddings.len()
            invariant
                self.wf(),
                self.configs() == held,
                held == old(self).configs(),
                active@.len() == held.len(),
                bytes == text.spec_bytes(),
                len == bytes.len(),
                k <= embeddings.len(),
                in_order(embeddings@, len),
                children@.len() == k,
                paired(embeddings@.take(k as int), children@),
                forall|j: int|
                    0 <= j < k ==> expands_to(held, bytes, embeddings@[j], active@, #[trigger] children@[j]),
            decreases embeddings.len() - k,
        {
            let ghost had = children@;
            proof {
                assert(fits(embeddings@[k as int], 0, len));
            }
            let child = match self.expand(text, &embeddings[k], active) {
                Ok(child) => child,
                Err(e) => {
                    return Err(e);
                },
            };
            children.push(child);
            proof {
                let now = embeddings@.take(k + 1);
                let done = embeddings@.take(k as int);
                assert forall|i: int| 0 <= i < now.len() implies (#[trigger] children@[i]).spec_len()
                    == now[i].end - now[i].start by {
                    if i < k {
                        assert(had[i].spec_len() == done[i].end - done[i].start);
                    }
                }
                assert forall|j: int| 0 <= j < k + 1 implies expands_to(
                    held,
                    bytes,
                    embeddings@[j],
                    active@,
                    #[trigger] children@[j],
                ) by {
                    if j < k {
                        assert(children@[j] == had[j]);
                    }
                }
            }
            k += 1;
        }
        proof {
            assert(embeddings@.take(embeddings.len() as int) =~= embeddings@);
        }
        match embed(layering, &embeddings, &children) {
            Some(merged) => {
                proof {
                    let outcome = (merged, embeddings@);
                    assert(own.embeddings@ == embeddings@);
                    assert(joins(own, children@, outcome));
                    assert forall|k: int| 0 <= k < children@.len() implies expands_to(
                        held,
                        bytes,
                        own.embeddings@[k],
                        active@,
                        #[trigger] children@[k],
                    ) by {}
                    lemma_resolved(held, plugin as int, bytes, active@, own, children@, outcome);
                }
                Ok((merged, embeddings))
            },
            None => unreached(),
        }
    }

    /// Highlights the bytes of `text` that `e` hands to another language.
    ///
    /// Whether the bytes stay plain is decided by [`plan_expansion`]. Where they
    /// are expanded and cannot be parsed, they stay plain too.
    fn expand(&mut self, text: &str, e: &Embedding, active: &Vec<bool>) -> (child: Result<
        Layering,
        RuntimeError,
    >)
        requires
            old(self).wf(),
            active@.len() == old(self).configs().len(),
            fits(*e, 0, text.spec_bytes().len() as int),
        ensures
            final(self).wf(),
            final(self).configs() == old(self).configs(),
            child matches Ok(l) ==> expands_to(old(self).configs(), text.spec_bytes(), *e, active@, l),
            child matches Err(e) ==> e is ResourceExhausted && final(self).exhausted(),
        decreases text.spec_bytes().len(), idle(active@), 0nat,
    {
        let ghost held = self.configs();
        let ghost bytes = text.spec_bytes();
        let span = e.end - e.start;
        let served = self.lookup(e.language.as_str());
        let whole = e.start == 0 && e.end == text.as_bytes().len();
        let cut = text.is_char_boundary(e.end) && text.split_at(e.end).0.is_char_boundary(e.start);
        let ghost wanted = expansion(
            first_of(languages_of(held), e.language@),
            is_whole(*e, bytes.len() as int),
            on_boundaries(bytes, *e),
            active@,
        );
        let (target, marks) = match plan_expansion(served, whole, cut, active) {
            None => {
                let child = Layering::plain(span);
                proof {
                    assert(wanted is None);
                    assert(is_plain(child, e.end - e.start));
                }
                return Ok(child);
            },
            Some(plan) => plan,
        };
        let (head, _) = text.split_at(e.end);
        let (_, slice) = head.split_at(e.start);
        let ghost piece = bytes.subrange(e.start as int, e.end as int);
        proof {
            assert(wanted == Some((target as int, marks@)));
            assert(slice.spec_bytes() =~= piece);
            if whole {
                lemma_idle_marked(active@, target as int);
            }
        }
        match self.resolve(target, slice, &marks) {
            Ok(merged) => {
                proof {
                    lemma_expanded(held, bytes, *e, active@, Some((merged.0, merged.1@)), merged.0);
                }
                Ok(merged.0)
            },
            Err(RuntimeError::Scan(_)) => {
                let child = Layering::plain(span);
                proof {
                    assert(is_plain(child, e.end - e.start));
                    lemma_expanded(held, bytes, *e, active@, None, child);
                }
                Ok(child)
            },
            Err(e) => Err(e),
        }
    }
}

/// Everything that highlighting one text came to.
#[derive(Debug)]
pub struct Highlighted {
    /// The captures of the language of the text and of every language
    /// embedded in it, set into one another.
    pub layering: Layering,
    /// The ranges that the language of the text handed to other languages.
    pub embeddings: Vec<Embedding>,
}

/// `result` is the highlighting `merged` of a text of the bytes `bytes` as a
/// message of the wire protocol.
pub open spec fn wire_of(bytes: Seq<u8>, merged: (Layering, Seq<Embedding>), result: ParseResult) -> bool {
    &&& spans_sorted(result.spans@, units_total(bytes) as int)
    &&& injections_sorted(result.injections@, units_total(bytes) as int)
    &&& exists|flat: Seq<ByteSpan>| #[trigger]
        reads_flat(merged.0@, flat) && result.spans@ == wire_spans(bytes, flat)
    &&& result.injections@ == wire_injections(bytes, merged.1)
}

/// `result` is the message for a highlighting to which a text of the bytes
/// `bytes` may come with the plugin at `plugin`.
pub open spec fn reports<G: Grammar>(
    configs: Seq<HighlightConfig<G>>,
    plugin: int,
    bytes: Seq<u8>,
    result: ParseResult,
) -> bool {
    exists|merged: (Layering, Seq<Embedding>)|
        #![trigger wire_of(bytes, merged, result)]
        resolves_to(configs, plugin, bytes, only_marked(configs.len(), plugin), Some(merged))
            && wire_of(bytes, merged, result)
}

/// `events` is the stream for a highlighting to which a text of the bytes
/// `bytes` may come with the plugin at `plugin`.
pub open spec fn streams<G: Grammar>(
    configs: Seq<HighlightConfig<G>>,
    plugin: int,
    bytes: Seq<u8>,
    events: Seq<HighlightEvent>,
) -> bool {
    exists|merged: (Layering, Seq<Embedding>)|
        #![trigger events_of(merged.0@)]
        resolves_to(configs, plugin, bytes, only_marked(configs.len(), plugin), Some(merged))
            && events == events_of(merged.0@)
}

impl<G: Grammar> Highlighter<G> {
    /// Highlights `text` as `language`, together with everything embedded in it.
    ///
    /// Fails with `UnsupportedLanguage` where no plugin serves the language,
    /// and only there. Where one does, the grammars are asked, and the outcome
    /// is what [`resolves_to`] says of their answers: the highlighting of the
    /// whole text, or a scan failure where the text itself cannot be parsed.
    /// `ResourceExhausted` comes only where a plugin has no session
    /// identifier left.
    pub fn highlight(&mut self, language: &str, text: &str) -> (outcome: Result<
        Highlighted,
        HighlightError,
    >)
        requires
            old(self).wf(),
        ensures
            final(self).wf(),
            final(self).configs() == old(self).configs(),
            old(self).serving(language@) is None <==> (outcome matches Err(
                HighlightError::UnsupportedLanguage,
            )),
            outcome matches Ok(h) ==> old(self).serving(language@) matches Some(plugin)
                && resolves_to(
                old(self).configs(),
                plugin,
                text.spec_bytes(),
                only_marked(old(self).configs().len(), plugin),
                Some((h.layering, h.embeddings@)),
            ),
            outcome matches Err(HighlightError::Scan(_)) ==> old(self).serving(language@) matches Some(
                plugin,
            ) && resolves_to(
                old(self).configs(),
                plugin,
                text.spec_bytes(),
                only_marked(old(self).configs().len(), plugin),
                None,
            ),
            outcome matches Err(HighlightError::ResourceExhausted) ==> final(self).exhausted(),
            outcome matches Err(e) ==> !(e is VersionMismatch),
    {
        let served = self.lookup(language);
        let plugin = match served {
            None => {
                return Err(HighlightError::UnsupportedLanguage);
            },
            Some(plugin) => plugin,
        };
        let marks = only(self.plugins.len(), plugin);
        match self.resolve(plugin, text, &marks) {
            Ok(merged) => Ok(Highlighted { layering: merged.0, embeddings: merged.1 }),
            Err(RuntimeError::Scan(e)) => Err(HighlightError::Scan(e)),
            Err(_) => Err(HighlightError::ResourceExhausted),
        }
    }

    /// Highlights `text` as `language` and renders the outcome as a stream of
    /// events: the events of the layering that [`Highlighter::highlight`]
    /// gives.
    pub fn highlight_events(&mut self, language: &str, text: &str) -> (outcome: Result<
        Vec<HighlightEvent>,
        HighlightError,
    >)
        requires
            old(self).wf(),
        ensures
            final(self).wf(),
            final(self).configs() == old(self).configs(),
            old(self).serving(language@) is None <==> (outcome matches Err(
                HighlightError::UnsupportedLanguage,
            )),
            outcome matches Ok(events) ==> old(self).serving(language@) matches Some(plugin)
                && streams(old(self).configs(), plugin, text.spec_bytes(), events@),
            outcome matches Err(HighlightError::Scan(_)) ==> old(self).serving(language@) matches Some(
                plugin,
            ) && resolves_to(
                old(self).configs(),
                plugin,
                text.spec_bytes(),
                only_marked(old(self).configs().len(), plugin),
                None,
            ),
            outcome matches Err(HighlightError::ResourceExhausted) ==> final(self).exhausted(),
            outcome matches Err(e) ==> !(e is VersionMismatch),
    {
        match self.highlight(language, text) {
            Ok(highlighted) => {
                let events = render(&highlighted.layering);
                proof {
                    let merged = (highlighted.layering, highlighted.embeddings@);
                    assert(events@ == events_of(merged.0@));
                }
                Ok(events)
            },
            Err(e) => Err(e),
        }
    }

    /// Highlights `text` as `language` and gives the outcome as a message of
    /// the wire protocol: the flat reading of the merged highlighting, and the
    /// ranges that the language of the text handed to other languages.
    pub fn parse(&mut self, language: &str, text: &str) -> (outcome: Result<
        ParseResult,
        HighlightError,
    >)
        requires
            old(self).wf(),
        ensures
            final(self).wf(),
            final(self).configs() == old(self).configs(),
            old(self).serving(language@) is None <==> (outcome matches Err(
                HighlightError::UnsupportedLanguage,
            )),
            outcome matches Ok(r) ==> old(self).serving(language@) matches Some(plugin) && reports(
                old(self).configs(),
                plugin,
                text.spec_bytes(),
                r,
            ),
            outcome matches Ok(r) ==> {
                &&& spans_sorted(r.spans@, units_total(text.spec_bytes()) as int)
                &&& injections_sorted(r.injections@, units_total(text.spec_bytes()) as int)
            },
            outcome matches Err(HighlightError::Scan(_)) ==> old(self).serving(language@) matches Some(
                plugin,
            ) && resolves_to(
                old(self).configs(),
                plugin,
                text.spec_bytes(),
                only_marked(old(self).configs().len(), plugin),
                None,
            ),
            outcome matches Err(HighlightError::ResourceExhausted) ==> final(self).exhausted(),
            outcome matches Err(e) ==> !(e is VersionMismatch),
    {
        let ghost held = self.configs();
        match self.highlight(language, text) {
            Ok(highlighted) => {
                proof {
                    let plugin = self.serving(language@)->Some_0;
                    law_resolved_covers(
                        held,
                        plugin,
                        text.spec_bytes(),
                        only_marked(held.len(), plugin),
                        (highlighted.layering, highlighted.embeddings@),
                    );
                }
                match to_parse_result(text, &highlighted.layering, &highlighted.embeddings) {
                    Some(result) => {
                        proof {
                            let merged = (highlighted.layering, highlighted.embeddings@);
                            let plugin = old(self).serving(language@)->Some_0;
                            let flat = choose|flat: Seq<ByteSpan>| #[trigger]
                                reads_flat(merged.0@, flat) && result.spans@ == wire_spans(
                                    text.spec_bytes(),
                                    flat,
                                );
                            assert(reads_flat(merged.0@, flat));
                            assert(wire_of(text.spec_bytes(), merged, result));
                            assert(resolves_to(
                                held,
                                plugin,
                                text.spec_bytes(),
                                only_marked(held.len(), plugin),
                                Some(merged),
                            ));
                            assert(reports(held, plugin, text.spec_bytes(), result));
                        }
                        Ok(result)
                    },
                    None => unreached(),
                }
            },
            Err(e) => Err(e),
        }
    }
}

/// Marks for `count` languages of which only the one at `target` is marked.
fn only(count: usize, target: usize) -> (marks: Vec<bool>)
    ensures
        marks@ == only_marked(count as nat, target as int),
{
    let mut marks: Vec<bool> = Vec::new();
    let mut i: usize = 0;
    while i < count
        invariant
            i <= count,
            marks@.len() == i,
            forall|k: int| 0 <= k < i ==> #[trigger] marks@[k] == (k == target),
        decreases count - i,
    {
        marks.push(i == target);
        i += 1;
    }
    proof {
        assert(marks@ =~= only_marked(count as nat, target as int));
    }
    marks
}

} // verus!
