//! Messages sent from background translation tasks to the user interface.

use vstd::prelude::*;

verus! {

/// Messages sent from background tasks to the UI.
#[derive(Debug, Clone)]
pub enum UiMessage {
    /// A chunk of translation text has been received.
    UpdateTranslation(String),
    /// An error occurred during translation.
    Error(String),
    /// Translation has completed successfully.
    TranslationComplete,
    /// Translation was cancelled by the user.
    TranslationCancelled,
}

} // verus!
