//! Data model of the chat-completion API: requests, responses and stream
//! chunks.
//!
//! These are plain values; turning them into or out of JSON happens at the
//! transport boundary, outside the library.

use vstd::prelude::*;
use vstd::string::StringExecFns;

verus! {

/// One message of a chat conversation, sent verbatim to the remote model.
#[derive(Debug, Clone)]
pub struct ChatMessage {
    /// Role of the speaker: `system`, `user` or `assistant`.
    pub role: String,
    /// Text content of the message.
    pub content: String,
}

/// Body of one chat-completion request.
#[derive(Debug, Clone)]
pub struct ChatRequest {
    /// Identifier of the remote model.
    pub model: String,
    /// Ordered conversation to send.
    pub messages: Vec<ChatMessage>,
    /// Whether the response is streamed.
    pub stream: bool,
    /// Optional extended-thinking switch.
    pub thinking: Option<ThinkingConfig>,
}

/// Extended-thinking switch of a chat-completion request.
#[derive(Debug, Clone)]
pub struct ThinkingConfig {
    /// The literal mode name, `enabled` or `disabled`.
    pub thinking_type: String,
}

/// A complete, non-streamed chat-completion response.
#[derive(Debug)]
pub struct ChatResponse {
    /// Identifier of the completion.
    pub id: String,
    /// Object kind reported by the service.
    pub object: String,
    /// Creation time in epoch seconds.
    pub created: u64,
    /// Identifier of the model that answered.
    pub model: String,
    /// The alternative completions; usually one.
    pub choices: Vec<Choice>,
    /// Token accounting, when the service reports it.
    pub usage: Option<Usage>,
}

/// One alternative completion of a non-streamed response.
#[derive(Debug)]
pub struct Choice {
    /// Position of this choice in the response.
    pub index: u32,
    /// The generated message.
    pub message: ChatMessage,
    /// Why generation stopped, when reported.
    pub finish_reason: Option<String>,
}

/// Token accounting of a completion.
#[derive(Debug)]
pub struct Usage {
    /// Tokens in the prompt.
    pub prompt_tokens: u32,
    /// Tokens in the completion.
    pub completion_tokens: u32,
    /// Sum of both.
    pub total_tokens: u32,
}

/// The payload of one server-sent-event frame of a streamed response.
#[derive(Debug, Clone)]
pub struct StreamChunk {
    /// Identifier of the completion.
    pub id: String,
    /// Object kind reported by the service.
    pub object: String,
    /// Creation time in epoch seconds.
    pub created: u64,
    /// Identifier of the model that answers.
    pub model: String,
    /// The alternative completions; usually one.
    pub choices: Vec<StreamChoice>,
}

/// One alternative completion within a stream chunk.
#[derive(Debug, Clone)]
pub struct StreamChoice {
    /// Position of this choice in the response.
    pub index: u32,
    /// The incremental change carried by this chunk.
    pub delta: Delta,
    /// Why generation stopped, when reported.
    pub finish_reason: Option<String>,
}

/// The incremental change carried by one stream chunk.
#[derive(Debug, Clone)]
pub struct Delta {
    /// Role of the speaker, present in the first chunk only.
    pub role: Option<String>,
    /// The text fragment added by this chunk, when one is present.
    pub content: Option<String>,
}

impl ChatRequest {
    /// Builds the one request shape the client sends: the fixed model,
    /// streaming on, extended thinking enabled.
    pub fn new(messages: Vec<ChatMessage>) -> (r: ChatRequest)
        ensures
            r.model@ == "glm-4.7"@,
            r.messages == messages,
            r.stream,
            r.thinking matches Some(t) && t.thinking_type@ == "enabled"@,
    {
        ChatRequest {
            model: String::from_str("glm-4.7"),
            messages,
            stream: true,
            thinking: Some(ThinkingConfig { thinking_type: String::from_str("enabled") }),
        }
    }
}

impl StreamChunk {
    /// The text fragment of the first choice, when that choice exists and its
    /// delta carries content.
    pub fn first_content(&self) -> (r: Option<&String>)
        ensures
            match r {
                Some(s) => self.choices@.len() > 0 && self.choices@[0].delta.content == Some(*s),
                None => self.choices@.len() == 0 || self.choices@[0].delta.content is None,
            },
    {
        if self.choices.len() > 0 {
            self.choices[0].delta.content.as_ref()
        } else {
            None
        }
    }
}

} // verus!
