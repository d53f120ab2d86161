//! Playback state reported by the audio player collaborator.

use vstd::prelude::*;

verus! {

/// Playback state for an audio player.
#[derive(Debug, Clone, PartialEq)]
pub enum PlaybackState {
    /// No audio is playing.
    Idle,
    /// Audio is currently playing; carries the file being played.
    Playing(String),
    /// Playback completed successfully.
    Completed,
    /// Playback failed with an error message.
    Failed(String),
}

impl Default for PlaybackState {
    fn default() -> (r: Self)
        ensures
            r is Idle,
    {
        PlaybackState::Idle
    }
}

} // verus!
