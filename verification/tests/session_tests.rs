//! Tests for section splitting, the translation session state machine,
//! cancellation, the cache-hit fast path and the full streaming scenario.

use ai_translate::cache::TranslationCache;
use ai_translate::sections::split_sections;
use ai_translate::stream::{SseParser, StreamEvent};
use ai_translate::translator::{
    build_messages, cached_stream, SessionAction, SessionEvent, TranslationSession,
};

#[test]
fn section_splitting_with_markers() {
    let full = "Here you go.\n[Translation]\nHola\n\n[Terminology]\n- X: Y\n";
    let (translation, terminology) = split_sections(full, true);
    assert_eq!(translation, "Hola");
    assert_eq!(terminology, Some("- X: Y".to_string()));
}

#[test]
fn section_splitting_without_markers() {
    let full = "Hola, que tal";
    let (translation, terminology) = split_sections(full, true);
    assert_eq!(translation, "Hola, que tal");
    assert_eq!(terminology, None);

    let (translation, terminology) = split_sections("plain", false);
    assert_eq!(translation, "plain");
    assert_eq!(terminology, None);
}

#[test]
fn section_splitting_empty_terminology_is_absent() {
    let full = "[Translation]\nHola\n[Terminology]\n   \n";
    let (translation, terminology) = split_sections(full, true);
    assert_eq!(translation, "Hola");
    assert_eq!(terminology, None);
}

#[test]
fn session_accumulates_and_completes() {
    let mut session =
        TranslationSession::new("Hello".to_string(), "Spanish".to_string(), false);
    let a = session.step(SessionEvent::Delta("Ho".to_string()));
    assert!(matches!(a, SessionAction::Forward(s) if s == "Ho"));
    let a = session.step(SessionEvent::Delta("la".to_string()));
    assert!(matches!(a, SessionAction::Forward(s) if s == "la"));
    let a = session.step(SessionEvent::Done);
    match a {
        SessionAction::Complete(tr, term) => {
            assert_eq!(tr, "Hola");
            assert_eq!(term, None);
        }
        other => panic!("expected completion, got {:?}", other),
    }
    assert!(!session.is_streaming());
}

#[test]
fn session_splits_sections_on_completion() {
    let mut session = TranslationSession::new("Hello".to_string(), "Spanish".to_string(), true);
    session.step(SessionEvent::Delta("[Translation]\nHola".to_string()));
    session.step(SessionEvent::Delta("\n[Terminology]\n- X: Y\n".to_string()));
    let a = session.step(SessionEvent::Done);
    match a {
        SessionAction::Complete(tr, term) => {
            assert_eq!(tr, "Hola");
            assert_eq!(term, Some("- X: Y".to_string()));
        }
        other => panic!("expected completion, got {:?}", other),
    }
}

#[test]
fn session_empty_response_caches_nothing() {
    let mut session = TranslationSession::new("x".to_string(), "y".to_string(), false);
    let a = session.step(SessionEvent::Done);
    assert!(matches!(a, SessionAction::CompleteEmpty));
}

#[test]
fn session_failure_ends_call() {
    let mut session = TranslationSession::new("x".to_string(), "y".to_string(), false);
    let a = session.step(SessionEvent::Delta("partial".to_string()));
    assert!(matches!(a, SessionAction::Forward(_)));
    let a = session.step(
        SessionEvent::Failed(ai_translate::error::TranslationError::StreamError(
            "broken pipe".to_string(),
        )),
    );
    assert!(matches!(a, SessionAction::Fail(_)));
    // Nothing after the failure is acted upon: no completion, no cache write.
    let a = session.step(SessionEvent::Done);
    assert!(matches!(a, SessionAction::Ignore));
}

#[test]
fn cancellation_blocks_cache_write() {
    let mut cache = TranslationCache::new();
    let mut session = TranslationSession::new("Hello".to_string(), "Chinese".to_string(), false);

    let a = session.step(SessionEvent::Delta("你".to_string()));
    assert!(matches!(a, SessionAction::Forward(_)));

    // The caller set the cancel flag before the terminal marker arrived.
    let a = session.step(SessionEvent::CancelObserved);
    assert!(matches!(a, SessionAction::NotifyCancelled));

    // The terminal marker arriving late changes nothing: the session never
    // completes, so the driver never writes the cache.
    let a = session.step(SessionEvent::Done);
    assert!(matches!(a, SessionAction::Ignore));
    assert_eq!(cache.len(), 0);
    assert!(cache.get("Hello", "Chinese", false).is_none());
}

#[test]
fn scenario_live_stream_then_cache_hit() {
    let mut cache = TranslationCache::new();

    // The cache is empty: the fast path finds nothing.
    assert!(cached_stream(&cache, "Hello", "Chinese", false).is_none());

    // A live stream arrives: 你, 好, then the terminal marker.
    let mut parser = SseParser::new();
    let body = "data: {\"id\":\"1\",\"object\":\"c\",\"created\":1,\"model\":\"m\",\"choices\":[{\"index\":0,\"delta\":{\"content\":\"你\"},\"finish_reason\":null}]}\n\
data: {\"id\":\"1\",\"object\":\"c\",\"created\":1,\"model\":\"m\",\"choices\":[{\"index\":0,\"delta\":{\"content\":\"好\"},\"finish_reason\":null}]}\n\
data: [DONE]\n";
    let events = parser.feed(body.as_bytes());

    let mut session = TranslationSession::new("Hello".to_string(), "Chinese".to_string(), false);
    let mut forwarded: Vec<String> = Vec::new();
    let mut completed = false;
    for ev in events {
        let action = match ev {
            StreamEvent::Delta(s) => session.step(SessionEvent::Delta(s)),
            StreamEvent::Done => session.step(SessionEvent::Done),
        };
        match action {
            SessionAction::Forward(s) => forwarded.push(s),
            SessionAction::Complete(tr, term) => {
                completed = true;
                cache.set(
                    session.source_text().as_str(),
                    session.target_language().as_str(),
                    session.keyword_analysis(),
                    tr,
                    term,
                    42,
                );
            }
            other => panic!("unexpected action {:?}", other),
        }
    }

    // The caller saw the deltas in order, then completion.
    assert_eq!(forwarded, vec!["你".to_string(), "好".to_string()]);
    assert!(completed);

    // The cache now holds the assembled translation.
    assert_eq!(
        cache.get("Hello", "Chinese", false),
        Some(("你好".to_string(), None))
    );

    // A second identical call is served from the cache, in the same shape a
    // live stream would have: the text, then the empty terminal marker.
    let replay = cached_stream(&cache, "Hello", "Chinese", false).unwrap();
    assert_eq!(replay, vec!["你好".to_string(), "".to_string()]);
}

#[test]
fn cached_stream_replays_terminology() {
    let mut cache = TranslationCache::new();
    cache.set(
        "t",
        "L",
        true,
        "tr".to_string(),
        Some("- a: b".to_string()),
        1,
    );
    let replay = cached_stream(&cache, "t", "L", true).unwrap();
    assert_eq!(
        replay,
        vec!["tr".to_string(), "- a: b".to_string(), "".to_string()]
    );
}

#[test]
fn build_messages_shapes_the_conversation() {
    let msgs = build_messages("Hello", "Chinese", false);
    assert_eq!(msgs.len(), 2);
    assert_eq!(msgs[0].role, "system");
    assert_eq!(
        msgs[0].content,
        "You are a professional translator. Output only the translation, nothing else."
    );
    assert_eq!(msgs[1].role, "user");
    assert_eq!(
        msgs[1].content,
        "Translate the following text to Chinese. Only output the translation, nothing else:\n\nHello"
    );

    let msgs = build_messages("Hello", "Chinese", true);
    assert!(msgs[0].content.contains("[Translation]"));
    assert!(msgs[0].content.contains("[Terminology]"));
    assert_eq!(
        msgs[1].content,
        "Translate the following text to Chinese:\n\nHello"
    );
}
