//! Error taxonomy for translation operations.
//!
//! Every variant carries its payload as a plain `String`; callers that deal
//! with transport or serialization libraries map their error values to these
//! variants at the boundary.

use vstd::prelude::*;
use vstd::string::StringExecFns;

verus! {

/// Main error type for translation operations.
#[derive(Debug, Clone)]
pub enum TranslationError {
    /// Error returned by the API service (non-success HTTP status).
    ApiError(String),
    /// Network-related failure while issuing the request.
    NetworkError(String),
    /// JSON serialization or deserialization failure.
    SerializationError(String),
    /// Failure while reading the response stream.
    StreamError(String),
    /// Configuration failure.
    ConfigError(String),
    /// File access failure.
    IoError(String),
    /// Invalid or missing API key.
    InvalidApiKey,
    /// General translation failure.
    TranslationFailed(String),
}

/// The human-readable description of an error, as a sequence of characters.
pub open spec fn spec_message(e: TranslationError) -> Seq<char> {
    match e {
        TranslationError::ApiError(s) => "API error: "@ + s@,
        TranslationError::NetworkError(s) => "Network error: "@ + s@,
        TranslationError::SerializationError(s) => "Serialization error: "@ + s@,
        TranslationError::StreamError(s) => "Stream error: "@ + s@,
        TranslationError::ConfigError(s) => "Configuration error: "@ + s@,
        TranslationError::IoError(s) => "IO error: "@ + s@,
        TranslationError::InvalidApiKey => "Invalid API key"@,
        TranslationError::TranslationFailed(s) => "Translation failed: "@ + s@,
    }
}

impl TranslationError {
    /// Renders the error as a message string, one fixed prefix per variant.
    pub fn message(&self) -> (r: String)
        ensures
            r@ == spec_message(*self),
    {
        match self {
            TranslationError::ApiError(s) => String::from_str("API error: ").concat(s.as_str()),
            TranslationError::NetworkError(s) => String::from_str("Network error: ").concat(
                s.as_str(),
            ),
            TranslationError::SerializationError(s) => String::from_str(
                "Serialization error: ",
            ).concat(s.as_str()),
            TranslationError::StreamError(s) => String::from_str("Stream error: ").concat(
                s.as_str(),
            ),
            TranslationError::ConfigError(s) => String::from_str("Configuration error: ").concat(
                s.as_str(),
            ),
            TranslationError::IoError(s) => String::from_str("IO error: ").concat(s.as_str()),
            TranslationError::InvalidApiKey => String::from_str("Invalid API key"),
            TranslationError::TranslationFailed(s) => String::from_str(
                "Translation failed: ",
            ).concat(s.as_str()),
        }
    }
}

} // verus!
