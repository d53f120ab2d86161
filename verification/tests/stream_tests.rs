//! Tests for the stream parser: frame parsing, the terminal sentinel,
//! malformed-frame tolerance and fragments split at line boundaries.

use ai_translate::stream::{SseParser, StreamEvent};

fn deltas_of(events: &[StreamEvent]) -> Vec<String> {
    let mut out = Vec::new();
    for e in events {
        if let StreamEvent::Delta(s) = e {
            out.push(s.clone());
        }
    }
    out
}

fn has_done(events: &[StreamEvent]) -> bool {
    events.iter().any(|e| matches!(e, StreamEvent::Done))
}

fn frame(content: &str) -> String {
    format!(
        "data: {{\"id\":\"x\",\"object\":\"chunk\",\"created\":1,\"model\":\"m\",\"choices\":[{{\"index\":0,\"delta\":{{\"content\":\"{}\"}},\"finish_reason\":null}}]}}\n",
        content
    )
}

#[test]
fn stream_parsing_emits_all_deltas_then_done() {
    let mut parser = SseParser::new();
    let mut body = String::new();
    body.push_str(&frame("Hel"));
    body.push_str("\n");
    body.push_str(&frame("lo"));
    body.push_str("\n");
    body.push_str("data: [DONE]\n");

    let events = parser.feed(body.as_bytes());
    assert_eq!(deltas_of(&events), vec!["Hel".to_string(), "lo".to_string()]);
    assert!(has_done(&events));
    assert!(parser.is_done());
}

#[test]
fn malformed_frame_is_skipped() {
    let mut parser = SseParser::new();
    let mut body = String::new();
    body.push_str(&frame("a"));
    body.push_str("data: {not json at all\n");
    body.push_str(&frame("b"));
    body.push_str("data: [DONE]\n");

    let events = parser.feed(body.as_bytes());
    assert_eq!(deltas_of(&events), vec!["a".to_string(), "b".to_string()]);
    assert!(has_done(&events));
}

#[test]
fn delta_split_across_reads_is_not_lost() {
    let mut parser = SseParser::new();
    let line = frame("Hola");
    let (left, right) = line.split_at(17);

    let events = parser.feed(left.as_bytes());
    assert!(events.is_empty());

    let mut events = parser.feed(right.as_bytes());
    let tail = parser.feed("data: [DONE]\n".as_bytes());
    events.extend(tail);
    assert_eq!(deltas_of(&events), vec!["Hola".to_string()]);
    assert!(has_done(&events));
}

#[test]
fn stream_parses_chunk_payload() {
    let mut parser = SseParser::new();
    let body = "data: {\n\
        \"id\": \"test\",\n"
        .replace("\n", "");
    // A chunk spread over one line, matching the wire shape exactly.
    let json = "data: {\"id\":\"test\",\"object\":\"chat.completion.chunk\",\"created\":1234567890,\"model\":\"glm-4.7\",\"choices\":[{\"index\":0,\"delta\":{\"content\":\"Hello\"},\"finish_reason\":null}]}\n";
    let _ = body;
    let events = parser.feed(json.as_bytes());
    assert_eq!(deltas_of(&events), vec!["Hello".to_string()]);
    assert!(!parser.is_done());
}

#[test]
fn chunk_without_content_contributes_nothing() {
    let mut parser = SseParser::new();
    let json = "data: {\"id\":\"t\",\"object\":\"c\",\"created\":1,\"model\":\"m\",\"choices\":[{\"index\":0,\"delta\":{\"role\":\"assistant\"},\"finish_reason\":null}]}\n";
    let events = parser.feed(json.as_bytes());
    assert!(events.is_empty());

    let json = "data: {\"id\":\"t\",\"object\":\"c\",\"created\":1,\"model\":\"m\",\"choices\":[]}\n";
    let events = parser.feed(json.as_bytes());
    assert!(events.is_empty());
}

#[test]
fn lines_without_prefix_are_ignored() {
    let mut parser = SseParser::new();
    let events = parser.feed(b"event: ping\n: comment\n\n");
    assert!(events.is_empty());
    let events = parser.feed(&frame("x").into_bytes());
    assert_eq!(deltas_of(&events), vec!["x".to_string()]);
}

#[test]
fn done_sentinel_tolerates_whitespace_and_cr() {
    let mut parser = SseParser::new();
    let events = parser.feed(b"data:  [DONE] \r\n");
    assert_eq!(events.len(), 1);
    assert!(has_done(&events));
    assert!(parser.is_done());

    // After completion the parser ignores further input.
    let events = parser.feed(&frame("late").into_bytes());
    assert!(events.is_empty());
}

#[test]
fn stream_end_without_sentinel_still_completes() {
    let mut parser = SseParser::new();
    let events = parser.feed(&frame("only").into_bytes());
    assert_eq!(deltas_of(&events), vec!["only".to_string()]);
    assert!(!parser.is_done());

    let events = parser.finish();
    assert_eq!(events.len(), 1);
    assert!(has_done(&events));
    assert!(parser.is_done());
}

#[test]
fn finish_processes_retained_trailing_line() {
    let mut parser = SseParser::new();
    // The final frame arrives without a trailing newline; the stream then
    // ends.  The retained line is still parsed.
    let line = frame("tail");
    let events = parser.feed(line.trim_end().as_bytes());
    assert!(events.is_empty());

    let events = parser.finish();
    assert_eq!(deltas_of(&events), vec!["tail".to_string()]);
    assert!(has_done(&events));
}
