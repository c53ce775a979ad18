//! Model-neutral facts handed to a recognizer when a stream begins.
use vstd::prelude::*;
use crate::model::AsrLanguage;

verus! {

/// A speech interval, in 16 kHz source samples, within the first PCM delta of
/// a stream. `end` is exclusive.
#[derive(Debug, Clone, Copy, PartialEq, Eq, Structural)]
pub struct AsrSpeechRangeSamples {
    pub start: usize,
    pub end: usize,
}

/// Facts captured when an ASR stream begins.
#[derive(Debug, Clone, Copy, PartialEq, Eq, Structural)]
pub struct AsrStreamConfig {
    /// Segmenter-derived speech bounds in the first PCM delta, when known.
    pub speech_range_samples: Option<AsrSpeechRangeSamples>,
    /// Optional language chosen by the host for a prompt-aware model.
    pub language_hint: Option<AsrLanguage>,
}

impl Default for AsrStreamConfig {
    fn default() -> (r: Self)
        ensures
            r.speech_range_samples.is_none(),
            r.language_hint.is_none(),
    {
        AsrStreamConfig { speech_range_samples: None, language_hint: None }
    }
}

} // verus!
