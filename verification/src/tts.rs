//! Status values for text-to-speech conversion tasks.

use vstd::prelude::*;

verus! {

/// Status of a text-to-speech conversion task.
#[derive(Debug, Clone, PartialEq)]
pub enum TtsStatus {
    /// Task is idle, not started.
    Idle,
    /// Conversion in progress.
    Converting,
    /// Conversion completed; carries the path of the audio file.
    Completed(String),
    /// Conversion failed; carries the failure message.
    Failed(String),
}

} // verus!
