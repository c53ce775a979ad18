//! Model-family contracts of the direct ONNX Runtime backends.
pub mod direct_ort;
pub mod direct_tdt;
pub mod factory;
pub mod hotword_entries;
pub mod nemotron;
pub mod parakeet;
pub mod reazon;
pub mod reazon_rerank;
pub mod segmentation;
pub mod static_tokenizer;
pub mod token_table;

use vstd::prelude::*;
use crate::model::{str_table_view, AsrModel, AsrPrecision};

verus! {

/// Beam width of the desktop application's `ReazonSpeech` accuracy mode.
pub const REAZON_PRODUCTION_BEAM_SIZE: usize = 4;
/// Lattice candidates scored by the static language model in balanced mode.
pub const REAZON_PRODUCTION_RETAINED_CANDIDATES: usize = 2;
/// Beam width of the Japanese Parakeet accuracy mode.
pub const PARAKEET_JA_PRODUCTION_BEAM_SIZE: usize = 2;
/// The acoustic top-k retained before direct hotword continuation injection.
pub const PARAKEET_JA_HOTWORD_ACOUSTIC_TOP_K: usize = 8;
/// Largest allowed CTC frame gap between successive hotword tokens.
pub const PARAKEET_JA_HOTWORD_MAX_GAP_FRAMES: usize = 8;

/// A backend asked for a model family it does not serve.
#[derive(Debug, Clone, Copy, PartialEq, Eq, Structural)]
pub struct UnsupportedModel {
    pub model: AsrModel,
}

#[derive(Debug, Clone, Copy, PartialEq, Eq, Structural)]
pub enum ReazonInitialContext {
    ModelReference,
    Sherpa,
}

impl Default for ReazonInitialContext {
    fn default() -> (r: Self)
        ensures
            r == ReazonInitialContext::ModelReference,
    {
        ReazonInitialContext::ModelReference
    }
}

#[derive(Debug, Clone, Copy, PartialEq, Eq, Structural)]
pub enum ReazonBeamPruning {
    StateDominance,
    FullPrefix,
    Sherpa,
}

impl Default for ReazonBeamPruning {
    fn default() -> (r: Self)
        ensures
            r == ReazonBeamPruning::StateDominance,
    {
        ReazonBeamPruning::StateDominance
    }
}

#[derive(Debug, Clone, Copy, PartialEq, Eq, Structural)]
pub enum ReazonNetworkBatching {
    CachedUnique,
    Sherpa,
}

impl Default for ReazonNetworkBatching {
    fn default() -> (r: Self)
        ensures
            r == ReazonNetworkBatching::CachedUnique,
    {
        ReazonNetworkBatching::CachedUnique
    }
}

/// Diagnostic switches of the `ReazonSpeech` modified beam search.
#[derive(Debug, Clone, Copy, PartialEq, Eq, Structural)]
pub struct ReazonBeamAblation {
    pub beam_size: usize,
    pub initial_context: ReazonInitialContext,
    pub unknown_is_non_emitting: bool,
    pub pruning: ReazonBeamPruning,
    pub network_batching: ReazonNetworkBatching,
}

impl ReazonBeamAblation {
    /// The production search: reference initial context, unknown emits,
    /// state-dominance pruning and cached unique network rows.
    pub fn production(beam_size: usize) -> (r: Self)
        ensures
            r == (ReazonBeamAblation {
                beam_size,
                initial_context: ReazonInitialContext::ModelReference,
                unknown_is_non_emitting: false,
                pruning: ReazonBeamPruning::StateDominance,
                network_batching: ReazonNetworkBatching::CachedUnique,
            }),
    {
        ReazonBeamAblation {
            beam_size,
            initial_context: ReazonInitialContext::ModelReference,
            unknown_is_non_emitting: false,
            pruning: ReazonBeamPruning::StateDominance,
            network_batching: ReazonNetworkBatching::CachedUnique,
        }
    }
}

/// The artifacts of the direct TDT and Nemotron exports.
pub open spec fn transducer_files() -> Seq<Seq<char>> {
    seq!["encoder.int8.onnx"@, "decoder.int8.onnx"@, "joiner.int8.onnx"@, "tokens.txt"@]
}

pub open spec fn spec_required_model_file_names(model: AsrModel, precision: AsrPrecision) -> Seq<
    Seq<char>,
> {
    match model {
        AsrModel::ReazonSpeechK2V2 => reazon::spec_required_model_file_names(precision),
        AsrModel::NemoParakeetTdtCtc0_6BJa35000Int8 => parakeet::shared_ctc_required_files(),
        _ => transducer_files(),
    }
}

fn transducer_file_table() -> (r: &'static [&'static str])
    ensures
        str_table_view(r) == transducer_files(),
{
    let r: &'static [&'static str] = &[
        "encoder.int8.onnx",
        "decoder.int8.onnx",
        "joiner.int8.onnx",
        "tokens.txt",
    ];
    assert(str_table_view(r) =~= transducer_files());
    r
}

/// The model artifacts that the host must download for the direct backend.
pub fn required_model_file_names(model: AsrModel, precision: AsrPrecision) -> (r: &'static [&'static str])
    ensures
        str_table_view(r) == spec_required_model_file_names(model, precision),
{
    match model {
        AsrModel::ReazonSpeechK2V2 => reazon::required_model_file_names(precision),
        AsrModel::NemoParakeetTdtCtc0_6BJa35000Int8 => parakeet::shared_ctc_required_file_table(),
        _ => transducer_file_table(),
    }
}

/// Every model declares a non-empty artifact list of non-empty names whose
/// last entry is its token table (`tokens.txt` or `vocab.txt`).
pub proof fn lemma_required_files_end_with_the_token_table(model: AsrModel, precision: AsrPrecision)
    ensures
        spec_required_model_file_names(model, precision).len() > 0,
        forall|i: int|
            0 <= i < spec_required_model_file_names(model, precision).len() ==> (#[trigger] spec_required_model_file_names(model, precision)[i]).len() > 0,
        spec_required_model_file_names(model, precision).last() == "tokens.txt"@
            || spec_required_model_file_names(model, precision).last() == "vocab.txt"@,
{
    reveal_strlit("encoder.int8.onnx");
    reveal_strlit("decoder.int8.onnx");
    reveal_strlit("joiner.int8.onnx");
    reveal_strlit("tokens.txt");
    reveal_strlit("vocab.txt");
    reveal_strlit("encoder-model.int8.onnx");
    reveal_strlit("encoder-model.int8.onnx.data");
    reveal_strlit("ctc-head-model.onnx");
    reveal_strlit("ctc-head-model.onnx_data");
    reveal_strlit("encoder-epoch-99-avg-1.int8.onnx");
    reveal_strlit("decoder-epoch-99-avg-1.int8.onnx");
    reveal_strlit("joiner-epoch-99-avg-1.int8.onnx");
    reveal_strlit("decoder-epoch-99-avg-1.onnx");
    reveal_strlit("encoder-epoch-99-avg-1.onnx");
    reveal_strlit("joiner-epoch-99-avg-1.onnx");
}

} // verus!
