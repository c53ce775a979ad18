//! Host-neutral contracts of Parapper's speech-recognition and translation models.
use vstd::prelude::*;

pub mod backend;
pub mod decoder;
pub mod engine;
pub mod frontend;
pub mod language_id;
pub mod model;
pub mod mt;
pub mod session;
pub mod td;
pub mod text;
pub mod transcript;

pub use model::{
    AsrLanguage, AsrModel, AsrModelCapability, AsrModelImplementation, AsrModelInfo, AsrPrecision,
    AsrStreamLanguage,
};

pub use engine::{AsrSpeechRangeSamples, AsrStreamConfig};
pub use session::StreamingSessionId;

verus! {

/// Sample rate of every PCM buffer handed to the recognizers.
pub const SAMPLE_RATE_HZ: u32 = 16_000;

} // verus!
