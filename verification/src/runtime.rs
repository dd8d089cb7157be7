//! The session runtime of one grammar plugin.
//!
//! A runtime serves one language. It hands out sessions, each with a text of
//! its own, and parses a session's text on request. A session goes from
//! created to text set to parsed, back to text set whenever its text or an
//! edit arrives, and ends when it is freed. Identifiers are handed out in
//! increasing order and never a second time, so that a freed identifier stays
//! invalid for good.

use crate::engine::{HighlightConfig, Tree};
use crate::grammar::{Grammar, Scan};
use crate::layers::clone_names;
use crate::offsets::units_total;
use crate::wire::{Edit, ParseError, ParseResult};
use vstd::string::StringSliceAdditionalSpecFns;
use vstd::prelude::*;
use vstd::utf8::encode_utf8;

verus! {

/// Where a session stands in its life.
#[derive(Debug, Clone, Copy, PartialEq, Eq, Structural)]
pub enum SessionState {
    /// The session exists and has no text yet.
    Created,
    /// The session has a text that has not been parsed as it stands.
    TextSet,
    /// The session's text has been parsed and nothing has changed since.
    Parsed,
}

/// Why the runtime did not do what was asked.
#[derive(Debug)]
pub enum RuntimeError {
    /// No live session has the identifier: it was never handed out, or the
    /// session has been freed.
    InvalidSession,
    /// No identifier is left to hand out.
    ResourceExhausted,
    /// The text could not be parsed.
    Scan(ParseError),
}

/// How a parse ended when it did not fail.
#[derive(Debug)]
pub enum ParseOutcome {
    /// The parse ran to its end.
    Parsed(ParseResult),
    /// The parse was cancelled before it ran.
    Cancelled,
}

/// One session.
pub struct Session {
    id: u32,
    text: String,
    state: SessionState,
    cancelled: bool,
    edits: Vec<Edit>,
    tree: Option<Tree>,
}

/// What can be seen of a session.
pub struct SessionView {
    /// The text of the session.
    pub text: Seq<char>,
    /// Where the session stands.
    pub state: SessionState,
    /// Whether a cancellation waits for the next parse.
    pub cancelled: bool,
    /// The edits that arrived since the last parse.
    pub edits: Seq<Edit>,
    /// The tree that the most recent parse left behind, if the session holds one.
    pub tree: Option<Tree>,
}

/// What can be seen of a runtime.
pub struct RuntimeView {
    /// The number of identifiers handed out so far.
    pub issued: nat,
    /// The live sessions, by identifier.
    pub sessions: Map<u32, SessionView>,
}

/// The session as it is right after its creation.
pub open spec fn fresh_session() -> SessionView {
    SessionView {
        text: Seq::empty(),
        state: SessionState::Created,
        cancelled: false,
        edits: Seq::empty(),
        tree: None,
    }
}

/// Every live identifier has been handed out: identifiers count from 1, and
/// those of live sessions lie at or below the number handed out.
pub open spec fn consistent(view: RuntimeView) -> bool {
    forall|id: u32| #[trigger] view.sessions.dom().contains(id) ==> 1 <= id <= view.issued
}

impl View for Session {
    type V = SessionView;

    closed spec fn view(&self) -> SessionView {
        SessionView {
            text: self.text@,
            state: self.state,
            cancelled: self.cancelled,
            edits: self.edits@,
            tree: self.tree,
        }
    }
}

/// Whether a session with identifier `id` is in the list.
pub closed spec fn listed(sessions: Seq<Session>, id: u32) -> bool {
    exists|i: int| 0 <= i < sessions.len() && (#[trigger] sessions[i]).id == id
}

/// The place of the session with identifier `id` in the list.
pub closed spec fn place(sessions: Seq<Session>, id: u32) -> int {
    choose|i: int| 0 <= i < sessions.len() && (#[trigger] sessions[i]).id == id
}

/// The sessions of a list, by identifier.
pub closed spec fn table(sessions: Seq<Session>) -> Map<u32, SessionView> {
    Map::new(|id: u32| listed(sessions, id), |id: u32| sessions[place(sessions, id)]@)
}

/// The identifiers in the list rise from one session to the next.
pub closed spec fn rising(sessions: Seq<Session>) -> bool {
    forall|i: int, j: int|
        0 <= i < j < sessions.len() ==> (#[trigger] sessions[i]).id < (#[trigger] sessions[j]).id
}

proof fn lemma_place(sessions: Seq<Session>, i: int)
    requires
        rising(sessions),
        0 <= i < sessions.len(),
    ensures
        listed(sessions, sessions[i].id),
        place(sessions, sessions[i].id) == i,
        table(sessions)[sessions[i].id] == sessions[i]@,
        table(sessions).dom().contains(sessions[i].id),
{
    let id = sessions[i].id;
    let p = place(sessions, id);
    if p < i {
        assert(sessions[p].id < sessions[i].id);
    } else if i < p {
        assert(sessions[i].id < sessions[p].id);
    }
}

proof fn lemma_table_push(sessions: Seq<Session>, session: Session)
    requires
        rising(sessions),
        forall|i: int| 0 <= i < sessions.len() ==> (#[trigger] sessions[i]).id < session.id,
    ensures
        rising(sessions.push(session)),
        table(sessions.push(session)) == table(sessions).insert(session.id, session@),
{
    let now = sessions.push(session);
    assert(rising(now));
    assert forall|id: u32| listed(now, id) <==> (listed(sessions, id) || id == session.id) by {
        if listed(sessions, id) {
            let i = place(sessions, id);
            assert(now[i].id == id);
        }
        if id == session.id {
            assert(now[sessions.len() as int].id == id);
        }
        if listed(now, id) {
            let i = place(now, id);
            if i < sessions.len() {
                assert(sessions[i].id == id);
            }
        }
    }
    assert forall|id: u32| listed(now, id) implies #[trigger] table(now)[id] == table(
        sessions,
    ).insert(session.id, session@)[id] by {
        let i = place(now, id);
        lemma_place(now, i);
        if i < sessions.len() {
            assert(sessions[i] == now[i]);
            lemma_place(sessions, i);
        }
    }
    assert(table(now) =~= table(sessions).insert(session.id, session@));
}

proof fn lemma_table_remove(sessions: Seq<Session>, at: int)
    requires
        rising(sessions),
        0 <= at < sessions.len(),
    ensures
        rising(sessions.remove(at)),
        table(sessions.remove(at)) == table(sessions).remove(sessions[at].id),
{
    let now = sessions.remove(at);
    let gone = sessions[at].id;
    assert forall|i: int, j: int| 0 <= i < j < now.len() implies (#[trigger] now[i]).id < (
    #[trigger] now[j]).id by {
        let a = if i < at {
            i
        } else {
            i + 1
        };
        let b = if j < at {
            j
        } else {
            j + 1
        };
        assert(sessions[a].id < sessions[b].id);
    }
    assert forall|id: u32| listed(now, id) <==> (listed(sessions, id) && id != gone) by {
        if listed(sessions, id) && id != gone {
            let i = place(sessions, id);
            if i < at {
                assert(now[i].id == id);
            } else {
                assert(now[i - 1].id == id);
            }
        }
        if listed(now, id) {
            let i = place(now, id);
            let a = if i < at {
                i
            } else {
                i + 1
            };
            assert(sessions[a].id == id);
            if a < at {
                assert(sessions[a].id < sessions[at].id);
            } else {
                assert(sessions[at].id < sessions[a].id);
            }
        }
    }
    assert forall|id: u32| listed(now, id) implies #[trigger] table(now)[id] == table(
        sessions,
    ).remove(gone)[id] by {
        let i = place(now, id);
        lemma_place(now, i);
        let a = if i < at {
            i
        } else {
            i + 1
        };
        assert(sessions[a] == now[i]);
        lemma_place(sessions, a);
    }
    assert(table(now) =~= table(sessions).remove(gone));
}

proof fn lemma_table_update(sessions: Seq<Session>, at: int, session: Session)
    requires
        rising(sessions),
        0 <= at < sessions.len(),
        session.id == sessions[at].id,
    ensures
        rising(sessions.update(at, session)),
        table(sessions.update(at, session)) == table(sessions).insert(session.id, session@),
{
    let now = sessions.update(at, session);
    assert forall|i: int, j: int| 0 <= i < j < now.len() implies (#[trigger] now[i]).id < (
    #[trigger] now[j]).id by {
        assert(sessions[i].id < sessions[j].id);
    }
    assert forall|id: u32| listed(now, id) <==> listed(sessions, id) by {
        if listed(sessions, id) {
            let i = place(sessions, id);
            assert(now[i].id == id);
        }
        if listed(now, id) {
            let i = place(now, id);
            assert(sessions[i].id == id);
        }
    }
    lemma_place(sessions, at);
    assert forall|id: u32| listed(now, id) implies #[trigger] table(now)[id] == table(
        sessions,
    ).insert(session.id, session@)[id] by {
        let i = place(now, id);
        lemma_place(now, i);
        if i != at {
            assert(sessions[i] == now[i]);
            lemma_place(sessions, i);
            if i < at {
                assert(sessions[i].id < sessions[at].id);
            } else {
                assert(sessions[at].id < sessions[i].id);
            }
        }
    }
    assert(table(now) =~= table(sessions).insert(session.id, session@));
}

/// A session that counts as parsed holds a tree that a parse of its text
/// under `config` may leave behind.
pub open spec fn sound<G: Grammar>(config: HighlightConfig<G>, session: SessionView) -> bool {
    session.state == SessionState::Parsed ==> (session.tree matches Some(tree) && config.parses_to(
        encode_utf8(session.text),
        tree,
    ))
}

/// The session `session` is sound under `config`.
pub closed spec fn settled<G: Grammar>(config: HighlightConfig<G>, session: Session) -> bool {
    sound(config, session@)
}

/// The session runtime of one grammar.
pub struct PluginRuntime<G: Grammar> {
    config: HighlightConfig<G>,
    sessions: Vec<Session>,
    issued: u32,
}

impl<G: Grammar> View for PluginRuntime<G> {
    type V = RuntimeView;

    closed spec fn view(&self) -> RuntimeView {
        RuntimeView { issued: self.issued as nat, sessions: table(self.sessions@) }
    }
}

/// The message of the error for a parse of a session without text.
pub open spec fn no_text_message() -> Seq<char> {
    "no text has been set"@
}

impl<G: Grammar> PluginRuntime<G> {
    /// The runtime is in order: its sessions are listed by rising identifier,
    /// every identifier in use has been handed out, and a session that counts
    /// as parsed holds the tree of its text.
    pub closed spec fn wf(&self) -> bool {
        &&& rising(self.sessions@)
        &&& forall|i: int|
            0 <= i < self.sessions@.len() ==> 1 <= (#[trigger] self.sessions@[i]).id <= self.issued
        &&& forall|i: int|
            0 <= i < self.sessions@.len() ==> settled(self.config, #[trigger] self.sessions@[i])
    }

    /// The configuration that the runtime was made with.
    pub closed spec fn spec_config(&self) -> HighlightConfig<G> {
        self.config
    }

    /// A runtime that is in order never holds an identifier that was not handed out.
    pub proof fn law_identifiers_were_issued(&self)
        requires
            self.wf(),
        ensures
            consistent(self@),
    {
        assert forall|id: u32| #[trigger] self@.sessions.dom().contains(id) implies 1 <= id
            <= self@.issued by {
            let i = place(self.sessions@, id);
            assert(self.sessions@[i].id == id);
        }
    }

    /// Every session of a runtime that is in order is sound: one that counts
    /// as parsed holds a tree that a parse of the text it has may leave behind.
    pub proof fn law_sessions_are_sound(&self, id: u32)
        requires
            self.wf(),
            self@.sessions.dom().contains(id),
        ensures
            sound(self.spec_config(), self@.sessions[id]),
    {
        let i = place(self.sessions@, id);
        assert(settled(self.config, self.sessions@[i]));
    }

    /// A runtime for the grammar of `config`, with no session.
    pub fn new(config: HighlightConfig<G>) -> (runtime: Self)
        ensures
            runtime.wf(),
            runtime.spec_config() == config,
            runtime@.issued == 0,
            runtime@.sessions == Map::<u32, SessionView>::empty(),
    {
        let runtime = PluginRuntime { config, sessions: Vec::new(), issued: 0 };
        proof {
            assert(runtime@.sessions =~= Map::<u32, SessionView>::empty());
        }
        runtime
    }

    /// The configuration that the runtime was made with.
    pub fn config(&self) -> (config: &HighlightConfig<G>)
        ensures
            *config == self.spec_config(),
    {
        &self.config
    }

    /// The identifier of the language that the runtime serves.
    pub fn language_id(&self) -> (id: String)
        ensures
            id@ == self.spec_config().language_id@,
    {
        self.config.language_id.clone()
    }

    /// The languages that the grammar may embed, as it declares them.
    pub fn injection_languages(&self) -> (languages: Vec<String>)
        ensures
            languages@ == self.spec_config().injection_languages@,
    {
        clone_names(&self.config.injection_languages)
    }

    /// The place of the live session `id` in the list, if there is one.
    fn find(&self, id: u32) -> (at: Option<usize>)
        requires
            self.wf(),
        ensures
            at is Some <==> self@.sessions.dom().contains(id),
            at matches Some(i) ==> i < self.sessions@.len() && self.sessions@[i as int].id == id
                && self@.sessions[id] == self.sessions@[i as int]@,
    {
        let mut i: usize = 0;
        while i < self.sessions.len()
            invariant
                i <= self.sessions.len(),
                self.wf(),
                forall|k: int| 0 <= k < i ==> (#[trigger] self.sessions@[k]).id != id,
            decreases self.sessions.len() - i,
        {
            if self.sessions[i].id == id {
                proof {
                    lemma_place(self.sessions@, i as int);
                }
                return Some(i);
            }
            i += 1;
        }
        proof {
            if listed(self.sessions@, id) {
                let k = place(self.sessions@, id);
                assert(self.sessions@[k].id == id);
            }
        }
        None
    }

    /// Whether `id` names a live session.
    pub fn is_live(&self, id: u32) -> (live: bool)
        requires
            self.wf(),
        ensures
            live == self@.sessions.dom().contains(id),
    {
        self.find(id).is_some()
    }

    /// Where the session `id` stands, if it is live.
    pub fn state_of(&self, id: u32) -> (state: Option<SessionState>)
        requires
            self.wf(),
        ensures
            state == if self@.sessions.dom().contains(id) {
                Some(self@.sessions[id].state)
            } else {
                None
            },
    {
        match self.find(id) {
            Some(at) => Some(self.sessions[at].state),
            None => None,
        }
    }

    /// Whether a cancellation waits for the next parse of the session `id`,
    /// if it is live.
    pub fn is_cancelled(&self, id: u32) -> (cancelled: Option<bool>)
        requires
            self.wf(),
        ensures
            cancelled == if self@.sessions.dom().contains(id) {
                Some(self@.sessions[id].cancelled)
            } else {
                None
            },
    {
        match self.find(id) {
            Some(at) => Some(self.sessions[at].cancelled),
            None => None,
        }
    }

    /// The number of edits that wait for the next parse of the session `id`,
    /// if it is live.
    pub fn pending_edits(&self, id: u32) -> (count: Option<usize>)
        requires
            self.wf(),
        ensures
            count matches Some(n) ==> self@.sessions.dom().contains(id) && n
                == self@.sessions[id].edits.len(),
            count is None <==> !self@.sessions.dom().contains(id),
    {
        match self.find(id) {
            Some(at) => Some(self.sessions[at].edits.len()),
            None => None,
        }
    }

    /// The number of identifiers handed out so far.
    pub fn issued(&self) -> (count: u32)
        ensures
            count == self@.issued,
    {
        self.issued
    }

    /// Opens a session and hands out its identifier.
    ///
    /// The identifier is the next one that was never handed out. Where all
    /// identifiers have been handed out, nothing changes and the call fails
    /// with `ResourceExhausted`.
    pub fn create_session(&mut self) -> (created: Result<u32, RuntimeError>)
        requires
            old(self).wf(),
        ensures
            final(self).wf(),
            final(self).spec_config() == old(self).spec_config(),
            old(self)@.issued < u32::MAX ==> created == Ok::<u32, RuntimeError>(
                (old(self)@.issued + 1) as u32,
            ) && final(self)@ == (RuntimeView {
                issued: old(self)@.issued + 1,
                sessions: old(self)@.sessions.insert(
                    (old(self)@.issued + 1) as u32,
                    fresh_session(),
                ),
            }),
            old(self)@.issued >= u32::MAX ==> created is Err && created->Err_0
                is ResourceExhausted && final(self)@ == old(self)@,
    {
        if self.issued == u32::MAX {
            return Err(RuntimeError::ResourceExhausted);
        }
        let id = self.issued + 1;
        let session = Session {
            id,
            text: String::new(),
            state: SessionState::Created,
            cancelled: false,
            edits: Vec::new(),
            tree: None,
        };
        proof {
            lemma_table_push(self.sessions@, session);
            assert(session@ == fresh_session()) by {
                assert(session.edits@ =~= Seq::<Edit>::empty());
            }
        }
        self.sessions.push(session);
        self.issued = id;
        Ok(id)
    }

    /// Ends the session `id`. Its identifier is invalid from then on.
    ///
    /// Fails with `InvalidSession`, and changes nothing, where no live session
    /// has that identifier.
    pub fn free_session(&mut self, id: u32) -> (freed: Result<(), RuntimeError>)
        requires
            old(self).wf(),
        ensures
            final(self).wf(),
            final(self).spec_config() == old(self).spec_config(),
            freed is Ok <==> old(self)@.sessions.dom().contains(id),
            freed is Ok ==> final(self)@ == (RuntimeView {
                issued: old(self)@.issued,
                sessions: old(self)@.sessions.remove(id),
            }),
            freed is Err ==> freed->Err_0 is InvalidSession && final(self)@ == old(self)@,
    {
        match self.find(id) {
            None => Err(RuntimeError::InvalidSession),
            Some(at) => {
                proof {
                    lemma_table_remove(self.sessions@, at as int);
                }
                let ghost before = self.sessions@;
                let _ = self.sessions.remove(at);
                proof {
                    assert forall|i: int| 0 <= i < self.sessions@.len() implies 1 <= (
                    #[trigger] self.sessions@[i]).id <= self.issued && settled(self.config, self.sessions@[i]) by {
                        let a = if i < at {
                            i
                        } else {
                            i + 1
                        };
                        assert(self.sessions@[i] == before[a]);
                    }
                }
                Ok(())
            },
        }
    }

    /// Marks the session `id` as cancelled: its next parse does not run.
    ///
    /// Fails with `InvalidSession`, and changes nothing, where no live session
    /// has that identifier.
    pub fn cancel(&mut self, id: u32) -> (done: Result<(), RuntimeError>)
        requires
            old(self).wf(),
        ensures
            final(self).wf(),
            final(self).spec_config() == old(self).spec_config(),
            done is Ok <==> old(self)@.sessions.dom().contains(id),
            done is Ok ==> final(self)@ == (RuntimeView {
                issued: old(self)@.issued,
                sessions: old(self)@.sessions.insert(
                    id,
                    (SessionView { cancelled: true, ..old(self)@.sessions[id] }),
                ),
            }),
            done is Err ==> done->Err_0 is InvalidSession && final(self)@ == old(self)@,
    {
        match self.find(id) {
            None => Err(RuntimeError::InvalidSession),
            Some(at) => {
                let ghost before = self.sessions@;
                self.sessions[at].cancelled = true;
                proof {
                    assert(self.sessions@ =~= before.update(at as int, self.sessions@[at as int]));
                    lemma_table_update(before, at as int, self.sessions@[at as int]);
                    assert forall|i: int| 0 <= i < self.sessions@.len() implies 1 <= (
                    #[trigger] self.sessions@[i]).id <= self.issued && settled(self.config, self.sessions@[i]) by {
                        if i != at {
                            assert(self.sessions@[i] == before[i]);
                        }
                    }
                }
                Ok(())
            },
        }
    }

    /// Records an edit of the text of the session `id`. The tree of the
    /// session, if it has one, no longer stands for its text.
    ///
    /// Fails with `InvalidSession`, and changes nothing, where no live session
    /// has that identifier.
    pub fn apply_edit(&mut self, id: u32, edit: Edit) -> (done: Result<(), RuntimeError>)
        requires
            old(self).wf(),
        ensures
            final(self).wf(),
            final(self).spec_config() == old(self).spec_config(),
            done is Ok <==> old(self)@.sessions.dom().contains(id),
            done is Ok ==> final(self)@ == (RuntimeView {
                issued: old(self)@.issued,
                sessions: old(self)@.sessions.insert(
                    id,
                    (SessionView {
                        edits: old(self)@.sessions[id].edits.push(edit),
                        state: if old(self)@.sessions[id].state == SessionState::Parsed {
                            SessionState::TextSet
                        } else {
                            old(self)@.sessions[id].state
                        },
                        ..old(self)@.sessions[id]
                    }),
                ),
            }),
            done is Err ==> done->Err_0 is InvalidSession && final(self)@ == old(self)@,
    {
        match self.find(id) {
            None => Err(RuntimeError::InvalidSession),
            Some(at) => {
                let ghost before = self.sessions@;
                self.sessions[at].edits.push(edit);
                if self.sessions[at].state == SessionState::Parsed {
                    self.sessions[at].state = SessionState::TextSet;
                }
                proof {
                    assert(self.sessions@ =~= before.update(at as int, self.sessions@[at as int]));
                    lemma_table_update(before, at as int, self.sessions@[at as int]);
                    assert forall|i: int| 0 <= i < self.sessions@.len() implies 1 <= (
                    #[trigger] self.sessions@[i]).id <= self.issued && settled(self.config, self.sessions@[i]) by {
                        if i != at {
                            assert(self.sessions@[i] == before[i]);
                        }
                    }
                }
                Ok(())
            },
        }
    }

    /// Gives the session `id` the text `text`. Nothing is parsed.
    ///
    /// A session that was parsed and is given the text it already has, with no
    /// edit waiting, stays parsed. Any other session has its text set and is
    /// to be parsed anew.
    ///
    /// Fails with `InvalidSession`, and changes nothing, where no live session
    /// has that identifier.
    pub fn set_text(&mut self, id: u32, text: &str) -> (done: Result<(), RuntimeError>)
        requires
            old(self).wf(),
        ensures
            final(self).wf(),
            final(self).spec_config() == old(self).spec_config(),
            done is Ok <==> old(self)@.sessions.dom().contains(id),
            done is Ok ==> final(self)@ == (RuntimeView {
                issued: old(self)@.issued,
                sessions: old(self)@.sessions.insert(
                    id,
                    text_step(old(self)@.sessions[id], text@),
                ),
            }),
            done is Err ==> done->Err_0 is InvalidSession && final(self)@ == old(self)@,
    {
        match self.find(id) {
            None => Err(RuntimeError::InvalidSession),
            Some(at) => {
                let ghost before = self.sessions@;
                let owned = text.to_owned();
                let same = self.sessions[at].state == SessionState::Parsed
                    && self.sessions[at].edits.len() == 0 && self.sessions[at].text == owned;
                if !same {
                    self.sessions[at].text = owned;
                    self.sessions[at].state = SessionState::TextSet;
                }
                proof {
                    assert(self.sessions@ =~= before.update(at as int, self.sessions@[at as int]));
                    lemma_table_update(before, at as int, self.sessions@[at as int]);
                    assert forall|i: int| 0 <= i < self.sessions@.len() implies 1 <= (
                    #[trigger] self.sessions@[i]).id <= self.issued && settled(self.config, self.sessions@[i]) by {
                        if i != at {
                            assert(self.sessions@[i] == before[i]);
                        }
                    }
                }
                Ok(())
            },
        }
    }
}

/// What a parse of the live session `session` may come to, and what it leaves
/// of the session.
///
/// A cancelled session is not parsed: the cancellation is taken up and the
/// outcome says so. A session without text fails and stays as it is. A session
/// that is parsed gets the result of the tree it holds again. For any other
/// session the grammar of `config` is asked with the text of the session and
/// the three queries of `config`, and [`scan_step`] says what comes of its
/// answer.
pub open spec fn parse_step<G: Grammar>(
    config: HighlightConfig<G>,
    session: SessionView,
    outcome: Result<ParseOutcome, RuntimeError>,
    after: SessionView,
) -> bool {
    if session.cancelled {
        &&& outcome matches Ok(ParseOutcome::Cancelled)
        &&& after == (SessionView { cancelled: false, ..session })
    } else if session.state == SessionState::Created {
        &&& outcome matches Err(RuntimeError::Scan(e))
        &&& e.message@ == no_text_message()
        &&& after == session
    } else if session.state == SessionState::Parsed {
        &&& outcome matches Ok(ParseOutcome::Parsed(r))
        &&& session.tree matches Some(tree)
        &&& r@ == tree.result@
        &&& after == session
    } else {
        exists|scanned: Result<Scan, ParseError>| #[trigger]
            config.admits(encode_utf8(session.text), scanned) && scan_step(
                config,
                session,
                scanned,
                outcome,
                after,
            )
    }
}

/// What a parse does with the answer `scanned` of the grammar to the text of
/// the session `session`.
///
/// A failure of the grammar is handed on as it is and the session stays. An
/// answer to a text that is longer than 32-bit offsets can address fails
/// too. Any other answer is grown into a tree: the session is parsed, holds
/// the tree and has no edit waiting, and the outcome is the result of the
/// tree.
pub open spec fn scan_step<G: Grammar>(
    config: HighlightConfig<G>,
    session: SessionView,
    scanned: Result<Scan, ParseError>,
    outcome: Result<ParseOutcome, RuntimeError>,
    after: SessionView,
) -> bool {
    let bytes = encode_utf8(session.text);
    match scanned {
        Err(e) => {
            &&& outcome matches Err(RuntimeError::Scan(f))
            &&& f == e
            &&& after == session
        },
        Ok(scan) => if units_total(bytes) <= u32::MAX {
            &&& outcome matches Ok(ParseOutcome::Parsed(r))
            &&& after.tree matches Some(tree)
            &&& config.grows(bytes, scan, tree)
            &&& r@ == tree.result@
            &&& after == (SessionView {
                state: SessionState::Parsed,
                edits: Seq::empty(),
                tree: after.tree,
                ..session
            })
        } else {
            &&& outcome matches Err(RuntimeError::Scan(_))
            &&& after == session
        },
    }
}

impl<G: Grammar> PluginRuntime<G> {
    /// Parses the text of the session `id`.
    ///
    /// Fails with `InvalidSession`, and changes nothing, where no live session
    /// has that identifier. For a live session see [`parse_step`]; the
    /// session is sound afterwards, so that a result that is handed out is
    /// always that of a tree which a parse of the session's text may leave
    /// behind. No other session is touched.
    pub fn parse(&mut self, id: u32) -> (outcome: Result<ParseOutcome, RuntimeError>)
        requires
            old(self).wf(),
        ensures
            final(self).wf(),
            final(self).spec_config() == old(self).spec_config(),
            final(self)@.issued == old(self)@.issued,
            !old(self)@.sessions.dom().contains(id) ==> outcome is Err && outcome->Err_0
                is InvalidSession && final(self)@ == old(self)@,
            old(self)@.sessions.dom().contains(id) ==> final(self)@.sessions.dom().contains(id)
                && parse_step(
                old(self).spec_config(),
                old(self)@.sessions[id],
                outcome,
                final(self)@.sessions[id],
            ) && sound(old(self).spec_config(), final(self)@.sessions[id])
                && final(self)@.sessions == old(self)@.sessions.insert(
                id,
                final(self)@.sessions[id],
            ),
    {
        let at = match self.find(id) {
            None => {
                return Err(RuntimeError::InvalidSession);
            },
            Some(at) => at,
        };
        let ghost before = self.sessions@;
        proof {
            lemma_place(before, at as int);
            assert(settled(self.config, before[at as int]));
        }
        if self.sessions[at].cancelled {
            self.sessions[at].cancelled = false;
            proof {
                self.lemma_updated(before, at as int);
            }
            return Ok(ParseOutcome::Cancelled);
        }
        match self.sessions[at].state {
            SessionState::Created => {
                proof {
                    assert(self@.sessions =~= self@.sessions.insert(id, self@.sessions[id]));
                }
                Err(RuntimeError::Scan(ParseError::new("no text has been set")))
            },
            SessionState::Parsed => {
                proof {
                    assert(self@.sessions =~= self@.sessions.insert(id, self@.sessions[id]));
                }
                match &self.sessions[at].tree {
                    Some(tree) => Ok(ParseOutcome::Parsed(tree.result.clone())),
                    None => unreached(),
                }
            },
            SessionState::TextSet => {
                let text = self.sessions[at].text.as_str();
                let highlights = self.config.highlights_query.as_str();
                let injections = self.config.injections_query.as_str();
                let locals = self.config.locals_query.as_str();
                let ghost session = before[at as int]@;
                let ghost bytes = encode_utf8(session.text);
                let scanned = self.config.grammar.scan(text, highlights, injections, locals);
                let ghost answered = scanned;
                proof {
                    assert(call_ensures(
                        G::scan,
                        (&self.config.grammar, text, highlights, injections, locals),
                        scanned,
                    ));
                    assert(text.spec_bytes() == bytes);
                    assert(self.config.admits(bytes, answered));
                }
                let grown = match scanned {
                    Err(e) => Err(e),
                    Ok(scan) => self.config.assemble(text, &scan),
                };
                match grown {
                    Err(e) => {
                        proof {
                            assert(self@.sessions =~= self@.sessions.insert(id, self@.sessions[id]));
                        }
                        let outcome = Err(RuntimeError::Scan(e));
                        proof {
                            assert(scan_step(self.config, session, answered, outcome, session));
                        }
                        outcome
                    },
                    Ok(tree) => {
                        let result = tree.result.clone();
                        let ghost grown_tree = tree;
                        self.sessions[at].tree = Some(tree);
                        self.sessions[at].state = SessionState::Parsed;
                        self.sessions[at].edits = Vec::new();
                        proof {
                            assert(self.sessions@[at as int].edits@ =~= Seq::<Edit>::empty());
                            assert(self.sessions@ =~= before.update(
                                at as int,
                                self.sessions@[at as int],
                            ));
                            let scan = answered->Ok_0;
                            assert(self.config.admits(bytes, Ok(scan)) && self.config.grows(
                                bytes,
                                scan,
                                grown_tree,
                            ));
                            assert(self.config.parses_to(bytes, grown_tree));
                            self.lemma_updated(before, at as int);
                        }
                        let outcome = Ok(ParseOutcome::Parsed(result));
                        proof {
                            assert(scan_step(
                                self.config,
                                session,
                                answered,
                                outcome,
                                self.sessions@[at as int]@,
                            ));
                        }
                        outcome
                    },
                }
            },
        }
    }

    /// Takes the tree out of the session `id`, for a host that goes on to work
    /// with it. The session is to be parsed anew.
    ///
    /// A session that is parsed gives its tree, which stands for its text.
    /// `None` is returned, and nothing changes, for any other session and where
    /// no live session has the identifier.
    pub fn take_tree(&mut self, id: u32) -> (taken: Option<Tree>)
        requires
            old(self).wf(),
        ensures
            final(self).wf(),
            final(self).spec_config() == old(self).spec_config(),
            final(self)@.issued == old(self)@.issued,
            taken is Some <==> old(self)@.sessions.dom().contains(id) && old(self)@.sessions[id].state
                == SessionState::Parsed,
            taken matches Some(tree) ==> {
                &&& old(self)@.sessions[id].tree == Some(tree)
                &&& old(self).spec_config().parses_to(
                    encode_utf8(old(self)@.sessions[id].text),
                    tree,
                )
                &&& final(self)@.sessions == old(self)@.sessions.insert(
                    id,
                    (SessionView {
                        state: SessionState::TextSet,
                        tree: None,
                        ..old(self)@.sessions[id]
                    }),
                )
            },
            taken is None ==> final(self)@ == old(self)@,
    {
        let at = match self.find(id) {
            None => {
                return None;
            },
            Some(at) => at,
        };
        let ghost before = self.sessions@;
        proof {
            lemma_place(before, at as int);
            assert(settled(self.config, before[at as int]));
        }
        if self.sessions[at].state != SessionState::Parsed {
            return None;
        }
        self.sessions[at].state = SessionState::TextSet;
        let taken = self.sessions[at].tree.take();
        proof {
            assert(self.sessions@ =~= before.update(at as int, self.sessions@[at as int]));
            self.lemma_updated(before, at as int);
        }
        taken
    }

    /// After a change to the session at `at` that kept its identifier and left
    /// it settled, the runtime is in order and its table has that one entry
    /// replaced.
    proof fn lemma_updated(&self, before: Seq<Session>, at: int)
        requires
            rising(before),
            0 <= at < before.len(),
            self.sessions@ == before.update(at, self.sessions@[at]),
            self.sessions@[at].id == before[at].id,
            settled(self.config, self.sessions@[at]),
            forall|i: int| 0 <= i < before.len() ==> 1 <= (#[trigger] before[i]).id <= self.issued,
            forall|i: int| 0 <= i < before.len() ==> settled(self.config, #[trigger] before[i]),
        ensures
            self.wf(),
            table(self.sessions@) == table(before).insert(before[at].id, self.sessions@[at]@),
            table(self.sessions@).dom().contains(before[at].id),
            table(self.sessions@)[before[at].id] == self.sessions@[at]@,
    {
        lemma_table_update(before, at, self.sessions@[at]);
        assert forall|i: int| 0 <= i < self.sessions@.len() implies 1 <= (
        #[trigger] self.sessions@[i]).id <= self.issued && settled(self.config, self.sessions@[i]) by {
            if i != at {
                assert(self.sessions@[i] == before[i]);
            }
        }
    }
}

/// A session keeps its tree over `set_text(text)` when it is parsed, no edit
/// waits, and `text` is the text it has.
pub open spec fn keeps_tree(session: SessionView, text: Seq<char>) -> bool {
    session.state == SessionState::Parsed && session.edits.len() == 0 && session.text == text
}

/// The session after `set_text(text)`: it has the text, and is to be parsed
/// anew unless it keeps its tree.
pub open spec fn text_step(session: SessionView, text: Seq<char>) -> SessionView {
    SessionView {
        text,
        state: if keeps_tree(session, text) {
            SessionState::Parsed
        } else {
            SessionState::TextSet
        },
        ..session
    }
}

/// Parsing a second time, with the text unchanged and no edit in between,
/// gives the result of the first parse again, and leaves the session as the
/// first parse left it.
pub proof fn law_reparse_repeats<G: Grammar>(
    config: HighlightConfig<G>,
    before: SessionView,
    first: Result<ParseOutcome, RuntimeError>,
    between: SessionView,
    second: Result<ParseOutcome, RuntimeError>,
    after: SessionView,
)
    requires
        parse_step(config, before, first, between),
        first matches Ok(ParseOutcome::Parsed(_)),
        parse_step(config, between, second, after),
    ensures
        after == between,
        first matches Ok(ParseOutcome::Parsed(r1)) && second matches Ok(ParseOutcome::Parsed(r2))
            && r1@ == r2@,
{
}

/// Giving a parsed session, with no edit waiting, the text that it has leaves
/// the session as it is.
pub proof fn law_same_text_changes_nothing(session: SessionView, text: Seq<char>)
    requires
        keeps_tree(session, text),
    ensures
        text_step(session, text) == session,
{
}

/// A session that was parsed, is given the same text again with no edit in
/// between, and is parsed once more, gives the result of the first parse
/// again.
pub proof fn law_same_text_reparse_repeats<G: Grammar>(
    config: HighlightConfig<G>,
    before: SessionView,
    first: Result<ParseOutcome, RuntimeError>,
    between: SessionView,
    second: Result<ParseOutcome, RuntimeError>,
    after: SessionView,
)
    requires
        parse_step(config, before, first, between),
        first matches Ok(ParseOutcome::Parsed(_)),
        between.edits.len() == 0,
        parse_step(config, text_step(between, between.text), second, after),
    ensures
        after == between,
        first matches Ok(ParseOutcome::Parsed(r1)) && second matches Ok(ParseOutcome::Parsed(r2))
            && r1@ == r2@,
{
}

/// The identifier that the next session gets is not in use. As identifiers are
/// handed out in rising order and every identifier in use has been handed
/// out, no session that was freed comes back under its identifier.
pub proof fn law_identifiers_are_new(view: RuntimeView)
    requires
        consistent(view),
        view.issued < u32::MAX,
    ensures
        !view.sessions.dom().contains((view.issued + 1) as u32),
{
}

} // verus!
