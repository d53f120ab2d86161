//! Core of a streaming translation client.
//!
//! The library covers the logic of the system: parsing a server-sent-event
//! stream of chat-completion chunks into text deltas, assembling and splitting
//! the final response into translation and terminology sections, and two
//! bounded content-addressed caches (translations and generated audio files)
//! with oldest-first batch eviction.  Network transport, file persistence and
//! the user interface live outside the library and talk to it through plain
//! values.

pub mod audio;
pub mod cache;
pub mod channel;
pub mod clock;
pub mod error;
pub mod messages;
pub mod playback;
pub mod sections;
pub mod stream;
pub mod translator;
pub mod tts;
