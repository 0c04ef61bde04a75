//! Errors that the library reports.

use vstd::prelude::*;

verus! {

/// A chunk strategy whose parameters cannot be used.
#[derive(Clone, Copy, Debug, PartialEq, Eq, Structural)]
pub enum ConfigurationError {
    /// The window holds no sentence.
    ZeroSentenceCount,
    /// The overlap is not smaller than the window, so the window could not advance.
    OverlapTooLarge,
}

impl ConfigurationError {
    /// A short description of the error.
    pub fn message(&self) -> (s: String)
        ensures
            s@ == match *self {
                ConfigurationError::ZeroSentenceCount => "sentence_count must be at least 1"@,
                ConfigurationError::OverlapTooLarge => "overlap must be smaller than sentence_count"@,
            },
    {
        match self {
            ConfigurationError::ZeroSentenceCount => "sentence_count must be at least 1".to_owned(),
            ConfigurationError::OverlapTooLarge => "overlap must be smaller than sentence_count".to_owned(),
        }
    }
}

/// The embedding capability failed; the message is the capability's own.
#[derive(Debug)]
pub struct EmbeddingError {
    pub message: String,
}

impl EmbeddingError {
    pub fn new(message: String) -> (e: EmbeddingError)
        ensures
            e.message == message,
    {
        EmbeddingError { message }
    }

    /// The capability's description of the failure.
    pub fn message(&self) -> (s: String)
        ensures
            s@ == self.message@,
    {
        self.message.clone()
    }
}

} // verus!
