//! Index arithmetic of the audio feature front ends.
pub mod kaldi;
pub mod nemo;
pub mod nemo_streaming;
