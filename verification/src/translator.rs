//! The translation session: prompt building, the cache-hit fast path, and
//! the per-call state machine that turns stream events into caller-visible
//! actions.
//!
//! The session owns no channel and performs no network call.  The driver —
//! whatever runs the transport — feeds it one event at a time: a text delta,
//! stream completion, a stream failure, or the observation that the caller's
//! cancel flag is set.  Each step answers with the one action to perform:
//! forward the delta, finish (and, when the response was non-empty, write
//! the split result into the cache), report failure, or report cancellation.
//! Once a terminal event is seen the session ignores everything after it, so
//! a cancelled or failed call can never produce a cache write.

use crate::error::TranslationError;
use crate::messages::ChatMessage;
use crate::sections::split_sections;
use crate::sections::split_spec;
use vstd::prelude::*;
use vstd::string::StringExecFns;

verus! {

/// Where one translation call stands.
#[derive(Debug, Clone, PartialEq)]
pub enum SessionState {
    /// Deltas are still being consumed.
    Streaming,
    /// The terminal marker arrived; the call is over.
    Completed,
    /// The caller cancelled before the terminal marker.
    Cancelled,
    /// The stream failed; nothing was cached.
    Failed,
}

/// One event handed to the session by its driver.
#[derive(Debug)]
pub enum SessionEvent {
    /// A text delta arrived from the stream.
    Delta(String),
    /// The stream completed.
    Done,
    /// The stream failed.
    Failed(TranslationError),
    /// The caller's cancel flag was observed set.
    CancelObserved,
}

/// The one action the driver performs after a step.
#[derive(Debug)]
pub enum SessionAction {
    /// Forward this delta to the caller.
    Forward(String),
    /// Deliver completion; write this translation and terminology into the
    /// cache under the session's query.
    Complete(String, Option<String>),
    /// Deliver completion; the response was empty, so nothing is cached.
    CompleteEmpty,
    /// Tell the caller the call was cancelled; nothing is cached.
    NotifyCancelled,
    /// Forward this failure to the caller; nothing is cached.
    Fail(TranslationError),
    /// Nothing: the session had already ended.
    Ignore,
}

/// The mathematical shape of a session event.
pub enum SessionEventModel {
    /// A text delta.
    Delta(Seq<char>),
    /// Stream completion.
    Done,
    /// Stream failure.
    Failed,
    /// The cancel flag was observed set.
    CancelObserved,
}

/// The model of one event.
pub open spec fn event_model(e: SessionEvent) -> SessionEventModel {
    match e {
        SessionEvent::Delta(s) => SessionEventModel::Delta(s@),
        SessionEvent::Done => SessionEventModel::Done,
        SessionEvent::Failed(_) => SessionEventModel::Failed,
        SessionEvent::CancelObserved => SessionEventModel::CancelObserved,
    }
}

/// How one event moves the session state.  Terminal states are sticky.
pub open spec fn step_state(st: SessionState, ev: SessionEventModel) -> SessionState {
    if !(st is Streaming) {
        st
    } else {
        match ev {
            SessionEventModel::Delta(_) => SessionState::Streaming,
            SessionEventModel::Done => SessionState::Completed,
            SessionEventModel::Failed => SessionState::Failed,
            SessionEventModel::CancelObserved => SessionState::Cancelled,
        }
    }
}

/// How one event grows the accumulated response.
pub open spec fn step_acc(st: SessionState, acc: Seq<char>, ev: SessionEventModel) -> Seq<char> {
    if st is Streaming {
        match ev {
            SessionEventModel::Delta(s) => acc + s,
            _ => acc,
        }
    } else {
        acc
    }
}

/// The state after a whole sequence of events.
pub open spec fn run_states(st: SessionState, evs: Seq<SessionEventModel>) -> SessionState
    decreases evs.len(),
{
    if evs.len() == 0 {
        st
    } else {
        run_states(step_state(st, evs[0]), evs.skip(1))
    }
}

/// Whether a run starting at `st` ever reaches the completed state — the
/// only state whose entry writes the cache.
pub open spec fn ever_completes(st: SessionState, evs: Seq<SessionEventModel>) -> bool
    decreases evs.len(),
{
    if st is Completed {
        true
    } else if evs.len() == 0 {
        false
    } else {
        ever_completes(step_state(st, evs[0]), evs.skip(1))
    }
}

/// Cancellation wins: when the cancel flag is observed before the terminal
/// marker, the session never completes, so no cache write occurs for the
/// call.
pub proof fn lemma_cancel_blocks_completion(evs: Seq<SessionEventModel>, i: int)
    requires
        0 <= i < evs.len(),
        evs[i] is CancelObserved,
        forall|j: int| 0 <= j < i ==> !((#[trigger] evs[j]) is Done),
    ensures
        !ever_completes(SessionState::Streaming, evs),
    decreases i,
{
    if i == 0 {
        assert(step_state(SessionState::Streaming, evs[0]) is Cancelled);
        lemma_terminal_never_completes(SessionState::Cancelled, evs.skip(1));
    } else {
        let st1 = step_state(SessionState::Streaming, evs[0]);
        if st1 is Streaming {
            assert forall|j: int| 0 <= j < i - 1 implies !((#[trigger] evs.skip(1)[j]) is Done) by {
                assert(evs.skip(1)[j] == evs[j + 1]);
            }
            assert(evs.skip(1)[i - 1] == evs[i]);
            lemma_cancel_blocks_completion(evs.skip(1), i - 1);
        } else {
            // The first event was a failure or a cancellation: terminal either
            // way, and never completed.
            assert(st1 is Failed || st1 is Cancelled);
            lemma_terminal_never_completes(st1, evs.skip(1));
        }
    }
}

/// A session in a cancelled or failed state stays there and never completes.
pub proof fn lemma_terminal_never_completes(st: SessionState, evs: Seq<SessionEventModel>)
    requires
        st is Cancelled || st is Failed,
    ensures
        !ever_completes(st, evs),
    decreases evs.len(),
{
    if evs.len() > 0 {
        assert(step_state(st, evs[0]) == st);
        lemma_terminal_never_completes(st, evs.skip(1));
    }
}

/// One translation call in flight: the query, the response accumulated so
/// far, and where the call stands.
pub struct TranslationSession {
    source_text: String,
    target_language: String,
    keyword_analysis: bool,
    accumulated: String,
    state: SessionState,
}

impl TranslationSession {
    /// The source text of the query.
    pub closed spec fn spec_text(self) -> Seq<char> {
        self.source_text@
    }

    /// The target language of the query.
    pub closed spec fn spec_lang(self) -> Seq<char> {
        self.target_language@
    }

    /// Whether keyword analysis was requested.
    pub closed spec fn spec_flag(self) -> bool {
        self.keyword_analysis
    }

    /// The response accumulated so far.
    pub closed spec fn spec_acc(self) -> Seq<char> {
        self.accumulated@
    }

    /// Where the call stands.
    pub closed spec fn spec_state(self) -> SessionState {
        self.state
    }

    /// Opens a session for one query, in the streaming state with nothing
    /// accumulated.
    pub fn new(source_text: String, target_language: String, keyword_analysis: bool) -> (r:
        TranslationSession)
        ensures
            r.spec_text() == source_text@,
            r.spec_lang() == target_language@,
            r.spec_flag() == keyword_analysis,
            r.spec_acc() == Seq::<char>::empty(),
            r.spec_state() is Streaming,
    {
        let r = TranslationSession {
            source_text,
            target_language,
            keyword_analysis,
            accumulated: String::new(),
            state: SessionState::Streaming,
        };
        proof {
            assert(r.spec_acc() =~= Seq::<char>::empty());
        }
        r
    }

    /// The source text, for the driver's cache write.
    pub fn source_text(&self) -> (r: &String)
        ensures
            r@ == self.spec_text(),
    {
        &self.source_text
    }

    /// The target language, for the driver's cache write.
    pub fn target_language(&self) -> (r: &String)
        ensures
            r@ == self.spec_lang(),
    {
        &self.target_language
    }

    /// Whether keyword analysis was requested, for the driver's cache write.
    pub fn keyword_analysis(&self) -> (r: bool)
        ensures
            r == self.spec_flag(),
    {
        self.keyword_analysis
    }

    /// Whether the session is still consuming deltas.
    pub fn is_streaming(&self) -> (r: bool)
        ensures
            r == (self.spec_state() is Streaming),
    {
        match self.state {
            SessionState::Streaming => true,
            _ => false,
        }
    }

    /// Feeds one event and returns the action the driver performs: deltas
    /// are accumulated and forwarded; completion splits the accumulated
    /// response into the value to cache, unless nothing was accumulated;
    /// failure and cancellation end the call with nothing to cache; and a
    /// session already ended ignores every further event.
    pub fn step(&mut self, event: SessionEvent) -> (action: SessionAction)
        ensures
            final(self).spec_text() == old(self).spec_text(),
            final(self).spec_lang() == old(self).spec_lang(),
            final(self).spec_flag() == old(self).spec_flag(),
            final(self).spec_state() == step_state(old(self).spec_state(), event_model(event)),
            final(self).spec_acc() == step_acc(
                old(self).spec_state(),
                old(self).spec_acc(),
                event_model(event),
            ),
            !(old(self).spec_state() is Streaming) ==> action is Ignore,
            old(self).spec_state() is Streaming ==> match event {
                SessionEvent::Delta(s) => action == SessionAction::Forward(s),
                SessionEvent::Done => {
                    if old(self).spec_acc().len() == 0 {
                        action is CompleteEmpty
                    } else {
                        action matches SessionAction::Complete(tr, term) && tr@ == split_spec(
                            old(self).spec_acc(),
                            old(self).spec_flag(),
                        ).0 && (match term {
                            Some(t) => split_spec(old(self).spec_acc(), old(self).spec_flag()).1
                                == Some(t@),
                            None => split_spec(old(self).spec_acc(), old(self).spec_flag()).1
                                is None,
                        })
                    }
                },
                SessionEvent::Failed(e) => action == SessionAction::Fail(e),
                SessionEvent::CancelObserved => action is NotifyCancelled,
            },
    {
        match self.state {
            SessionState::Streaming => {
                match event {
                    SessionEvent::Delta(s) => {
                        self.accumulated.append(s.as_str());
                        SessionAction::Forward(s)
                    },
                    SessionEvent::Done => {
                        self.state = SessionState::Completed;
                        if self.accumulated.as_str().is_empty() {
                            SessionAction::CompleteEmpty
                        } else {
                            let (tr, term) = split_sections(
                                self.accumulated.as_str(),
                                self.keyword_analysis,
                            );
                            SessionAction::Complete(tr, term)
                        }
                    },
                    SessionEvent::Failed(e) => {
                        self.state = SessionState::Failed;
                        SessionAction::Fail(e)
                    },
                    SessionEvent::CancelObserved => {
                        self.state = SessionState::Cancelled;
                        SessionAction::NotifyCancelled
                    },
                }
            },
            _ => SessionAction::Ignore,
        }
    }
}

/// What the cache-hit fast path replays: the cached translation, then the
/// cached terminology when there is one, then the empty terminal marker —
/// the same shape a live stream produces, so the consumer needs no
/// branching.
pub fn cached_stream(
    cache: &crate::cache::TranslationCache,
    source_text: &str,
    target_language: &str,
    keyword_analysis: bool,
) -> (r: Option<Vec<String>>)
    requires
        cache.wf(),
    ensures
        r is Some <==> crate::cache::has_key(
            cache@,
            crate::cache::key_of(source_text@, target_language@, keyword_analysis),
        ),
        r matches Some(v) ==> ({
            let k = crate::cache::key_of(source_text@, target_language@, keyword_analysis);
            match crate::cache::spec_get(cache@, k) {
                Some(p) => match p.1 {
                    None => v@.len() == 2 && v@[0]@ == p.0 && v@[1]@ == Seq::<char>::empty(),
                    Some(t) => v@.len() == 3 && v@[0]@ == p.0 && v@[1]@ == t && v@[2]@
                        == Seq::<char>::empty(),
                },
                None => false,
            }
        }),
{
    match cache.get(source_text, target_language, keyword_analysis) {
        Some((translation, terminology)) => {
            let mut v: Vec<String> = Vec::new();
            v.push(translation);
            match terminology {
                Some(t) => {
                    v.push(t);
                },
                None => {},
            }
            v.push(String::new());
            Some(v)
        },
        None => None,
    }
}

/// The fixed system prompt, by analysis mode.
pub open spec fn system_prompt(flag: bool) -> Seq<char> {
    if flag {
        "You are a professional translator. Reply with a section starting with the line [Translation] that holds only the translation, followed by a section starting with the line [Terminology] that lists key terms from the text with short explanations. Include domain-specific, ambiguous or culturally loaded terms; exclude common words that need no explanation. If no term is worth explaining, leave the [Terminology] section empty."@
    } else {
        "You are a professional translator. Output only the translation, nothing else."@
    }
}

/// The user message carrying the instruction and the text.
pub open spec fn user_message(text: Seq<char>, lang: Seq<char>, flag: bool) -> Seq<char> {
    if flag {
        "Translate the following text to "@ + lang + ":\n\n"@ + text
    } else {
        "Translate the following text to "@ + lang
            + ". Only output the translation, nothing else:\n\n"@ + text
    }
}

/// Builds the conversation for one query: the fixed system prompt selected
/// by the analysis mode, then the user message carrying the literal
/// instruction to translate the text into the target language.
pub fn build_messages(source_text: &str, target_language: &str, keyword_analysis: bool) -> (r: Vec<
    ChatMessage,
>)
    ensures
        r@.len() == 2,
        r@[0].role@ == "system"@,
        r@[0].content@ == system_prompt(keyword_analysis),
        r@[1].role@ == "user"@,
        r@[1].content@ == user_message(source_text@, target_language@, keyword_analysis),
{
    let system_text = if keyword_analysis {
        String::from_str(
            "You are a professional translator. Reply with a section starting with the line [Translation] that holds only the translation, followed by a section starting with the line [Terminology] that lists key terms from the text with short explanations. Include domain-specific, ambiguous or culturally loaded terms; exclude common words that need no explanation. If no term is worth explaining, leave the [Terminology] section empty.",
        )
    } else {
        String::from_str("You are a professional translator. Output only the translation, nothing else.")
    };
    let mut user_text = String::from_str("Translate the following text to ");
    user_text.append(target_language);
    if keyword_analysis {
        user_text.append(":\n\n");
    } else {
        user_text.append(". Only output the translation, nothing else:\n\n");
    }
    user_text.append(source_text);
    proof {
        assert(user_text@ =~= user_message(source_text@, target_language@, keyword_analysis));
    }
    let mut r: Vec<ChatMessage> = Vec::new();
    r.push(ChatMessage { role: String::from_str("system"), content: system_text });
    r.push(ChatMessage { role: String::from_str("user"), content: user_text });
    r
}

} // verus!
