//! Tests for the plain data model: UI messages, playback and TTS status,
//! errors and the request shape.

use ai_translate::channel::UiMessage;
use ai_translate::error::TranslationError;
use ai_translate::messages::{ChatMessage, ChatRequest, Delta, StreamChoice, StreamChunk};
use ai_translate::playback::PlaybackState;
use ai_translate::tts::TtsStatus;

#[test]
fn test_ui_message_variants() {
    let msg1 = UiMessage::UpdateTranslation("test".to_string());
    assert!(matches!(msg1, UiMessage::UpdateTranslation(_)));

    let msg2 = UiMessage::Error("error".to_string());
    assert!(matches!(msg2, UiMessage::Error(_)));

    let msg3 = UiMessage::TranslationComplete;
    assert!(matches!(msg3, UiMessage::TranslationComplete));

    let msg4 = UiMessage::TranslationCancelled;
    assert!(matches!(msg4, UiMessage::TranslationCancelled));
}

#[test]
fn test_ui_message_clone() {
    let msg = UiMessage::UpdateTranslation("test".to_string());
    let cloned = msg.clone();

    match (msg, cloned) {
        (UiMessage::UpdateTranslation(s1), UiMessage::UpdateTranslation(s2)) => {
            assert_eq!(s1, s2);
        }
        _ => panic!("Clone failed"),
    }
}

#[test]
fn test_playback_state_variants() {
    let state_idle = PlaybackState::Idle;
    let state_playing = PlaybackState::Playing("test.wav".to_string());
    let state_completed = PlaybackState::Completed;
    let state_failed = PlaybackState::Failed("error".to_string());

    assert_eq!(state_idle, PlaybackState::Idle);
    assert!(matches!(state_playing, PlaybackState::Playing(_)));
    assert_eq!(state_completed, PlaybackState::Completed);
    assert!(matches!(state_failed, PlaybackState::Failed(_)));
}

#[test]
fn playback_state_default_is_idle() {
    assert_eq!(PlaybackState::default(), PlaybackState::Idle);
}

#[test]
fn test_tts_status_variants() {
    let status_idle = TtsStatus::Idle;
    let status_converting = TtsStatus::Converting;
    let status_completed = TtsStatus::Completed("test.wav".to_string());
    let status_failed = TtsStatus::Failed("error".to_string());

    assert_eq!(status_idle, TtsStatus::Idle);
    assert_eq!(status_converting, TtsStatus::Converting);
    assert!(matches!(status_completed, TtsStatus::Completed(_)));
    assert!(matches!(status_failed, TtsStatus::Failed(_)));
}

#[test]
fn test_error_display() {
    let err = TranslationError::ApiError("Test error".to_string());
    assert_eq!(err.message(), "API error: Test error");

    let err = TranslationError::InvalidApiKey;
    assert_eq!(err.message(), "Invalid API key");
}

#[test]
fn every_error_variant_has_its_message() {
    assert_eq!(
        TranslationError::NetworkError("refused".to_string()).message(),
        "Network error: refused"
    );
    assert_eq!(
        TranslationError::SerializationError("bad json".to_string()).message(),
        "Serialization error: bad json"
    );
    assert_eq!(
        TranslationError::StreamError("cut".to_string()).message(),
        "Stream error: cut"
    );
    assert_eq!(
        TranslationError::ConfigError("no key".to_string()).message(),
        "Configuration error: no key"
    );
    assert_eq!(
        TranslationError::IoError("denied".to_string()).message(),
        "IO error: denied"
    );
    assert_eq!(
        TranslationError::TranslationFailed("empty".to_string()).message(),
        "Translation failed: empty"
    );
}

#[test]
fn chat_request_has_fixed_shape() {
    let request = ChatRequest::new(vec![ChatMessage {
        role: "user".to_string(),
        content: "test".to_string(),
    }]);
    assert_eq!(request.model, "glm-4.7");
    assert!(request.stream);
    assert_eq!(request.thinking.unwrap().thinking_type, "enabled");
    assert_eq!(request.messages.len(), 1);
    assert_eq!(request.messages[0].content, "test");
}

#[test]
fn stream_chunk_first_content() {
    let chunk = StreamChunk {
        id: "test".to_string(),
        object: "chat.completion.chunk".to_string(),
        created: 1234567890,
        model: "glm-4.7".to_string(),
        choices: vec![StreamChoice {
            index: 0,
            delta: Delta {
                role: None,
                content: Some("Hello".to_string()),
            },
            finish_reason: None,
        }],
    };
    assert_eq!(chunk.choices.len(), 1);
    assert_eq!(chunk.first_content(), Some(&"Hello".to_string()));

    let empty = StreamChunk {
        id: "e".to_string(),
        object: "c".to_string(),
        created: 0,
        model: "m".to_string(),
        choices: vec![],
    };
    assert_eq!(empty.first_content(), None);
}
