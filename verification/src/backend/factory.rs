//! Which direct engine serves a model, and the decoder and hotword checks
//! that run before any artifact is loaded.
use vstd::prelude::*;
use crate::backend::parakeet::{
    hybrid_ctc_gate_required_files, hybrid_required_file_table, hybrid_required_files,
    FusedTdtDagConfig, FusedTdtDurationExpansion,
};
use crate::backend::reazon::ReazonDecodingStrategy;
use crate::backend::{
    ReazonBeamAblation, ReazonBeamPruning, ReazonInitialContext, ReazonNetworkBatching,
    PARAKEET_JA_PRODUCTION_BEAM_SIZE,
};
use crate::model::{
    spec_debug_name, spec_default_precision, spec_implementation, str_table_view, AsrModel,
    AsrModelImplementation, AsrPrecision,
};
use crate::text::append_str;

verus! {

/// Symbol guard of NVIDIA's greedy TDT decoder, reused by the DAG search.
pub const NVIDIA_GREEDY_MAX_SYMBOLS_PER_STEP: usize = 10;

/// The CTC hotword gate of a Parakeet TDT-DAG configuration, as the checks
/// see it: off, or a threshold that is finite and non-positive, or one that
/// is not.
#[derive(Debug, Clone, Copy, PartialEq, Eq, Structural)]
pub enum CtcGateThreshold {
    Disabled,
    Admissible,
    Inadmissible,
}

/// Tuning of the Japanese Parakeet variable-width TDT DAG decoder.
#[derive(Debug, Clone, Copy, PartialEq, Eq, Structural)]
pub struct ParakeetJaTdtDagConfig {
    pub beam_size: usize,
    /// Applied only when at least one hotword is registered.
    pub ctc_gate: CtcGateThreshold,
}

/// Why an engine cannot be built for a model, decoder and hotword list.
#[derive(Debug, Clone, Copy, PartialEq, Eq, Structural)]
pub enum EngineBuildError {
    ReazonDecodingForOtherModel { model: AsrModel },
    ParakeetDecodingForOtherModel { model: AsrModel },
    ZeroParakeetBeam,
    InadmissibleCtcGateThreshold,
    ReazonHotwordsNeedBeam,
    ParakeetHotwordsNeedTdtDag,
    HotwordsUnsupported { model: AsrModel },
    ParakeetSharedCtcNeedsInt8,
    ParakeetHybridNeedsInt8,
    OnlyDefaultDecoding { model: AsrModel },
}

pub open spec fn spec_validate(config: ParakeetJaTdtDagConfig) -> Result<(), EngineBuildError> {
    if config.beam_size == 0 {
        Err(EngineBuildError::ZeroParakeetBeam)
    } else if config.ctc_gate == CtcGateThreshold::Inadmissible {
        Err(EngineBuildError::InadmissibleCtcGateThreshold)
    } else {
        Ok(())
    }
}

impl ParakeetJaTdtDagConfig {
    /// The desktop accuracy mode: beam two with the CTC gate on.
    pub fn production() -> (r: Self)
        ensures
            r == (ParakeetJaTdtDagConfig {
                beam_size: PARAKEET_JA_PRODUCTION_BEAM_SIZE,
                ctc_gate: CtcGateThreshold::Admissible,
            }),
    {
        ParakeetJaTdtDagConfig {
            beam_size: PARAKEET_JA_PRODUCTION_BEAM_SIZE,
            ctc_gate: CtcGateThreshold::Admissible,
        }
    }

    /// Refuses a zero beam first, then an inadmissible gate threshold.
    pub fn validate(self) -> (r: Result<(), EngineBuildError>)
        ensures
            r == spec_validate(self),
    {
        if self.beam_size == 0 {
            return Err(EngineBuildError::ZeroParakeetBeam);
        }
        match self.ctc_gate {
            CtcGateThreshold::Inadmissible => Err(EngineBuildError::InadmissibleCtcGateThreshold),
            _ => Ok(()),
        }
    }
}

/// The decoder a host asks for.
#[derive(Debug, Clone, Copy, PartialEq, Eq, Structural)]
pub enum AsrDecodingStrategy {
    Greedy,
    ReazonModifiedBeam { beam_size: usize },
    ReazonOneSpliceRerank { beam_size: usize, retained_candidates: usize },
    ReazonModifiedBeamAblation(ReazonBeamAblation),
    /// The shared-encoder Japanese Parakeet export decoded by its CTC head.
    ParakeetJaCtcGreedy,
    /// The shared-encoder Japanese Parakeet export decoded by the TDT DAG.
    ParakeetJaTdtVariableDag(ParakeetJaTdtDagConfig),
}

impl Default for AsrDecodingStrategy {
    fn default() -> (r: Self)
        ensures
            r == AsrDecodingStrategy::Greedy,
    {
        AsrDecodingStrategy::Greedy
    }
}

pub open spec fn spec_label(decoding: AsrDecodingStrategy) -> Seq<char> {
    match decoding {
        AsrDecodingStrategy::Greedy => "greedy"@,
        AsrDecodingStrategy::ReazonModifiedBeam { .. }
        | AsrDecodingStrategy::ReazonModifiedBeamAblation(_) => "modified_beam"@,
        AsrDecodingStrategy::ReazonOneSpliceRerank { .. } => "one_splice_static_rerank"@,
        AsrDecodingStrategy::ParakeetJaCtcGreedy => "parakeet_ctc_greedy"@,
        AsrDecodingStrategy::ParakeetJaTdtVariableDag(_) => "parakeet_tdt_variable_dag"@,
    }
}

pub open spec fn spec_beam_size(decoding: AsrDecodingStrategy) -> Option<usize> {
    match decoding {
        AsrDecodingStrategy::Greedy | AsrDecodingStrategy::ParakeetJaCtcGreedy => None,
        AsrDecodingStrategy::ReazonModifiedBeam { beam_size }
        | AsrDecodingStrategy::ReazonOneSpliceRerank { beam_size, .. } => Some(beam_size),
        AsrDecodingStrategy::ReazonModifiedBeamAblation(config) => Some(config.beam_size),
        AsrDecodingStrategy::ParakeetJaTdtVariableDag(config) => Some(config.beam_size),
    }
}

pub open spec fn spec_reazon_ablation(decoding: AsrDecodingStrategy) -> Option<ReazonBeamAblation> {
    match decoding {
        AsrDecodingStrategy::ReazonModifiedBeamAblation(config) => Some(config),
        AsrDecodingStrategy::ReazonModifiedBeam { beam_size } => Some(
            ReazonBeamAblation {
                beam_size,
                initial_context: ReazonInitialContext::ModelReference,
                unknown_is_non_emitting: false,
                pruning: ReazonBeamPruning::StateDominance,
                network_batching: ReazonNetworkBatching::CachedUnique,
            },
        ),
        _ => None,
    }
}

impl AsrDecodingStrategy {
    /// The name reported in evaluation output.
    pub fn label(self) -> (r: &'static str)
        ensures
            r@ == spec_label(self),
    {
        match self {
            AsrDecodingStrategy::Greedy => "greedy",
            AsrDecodingStrategy::ReazonModifiedBeam { .. }
            | AsrDecodingStrategy::ReazonModifiedBeamAblation(_) => "modified_beam",
            AsrDecodingStrategy::ReazonOneSpliceRerank { .. } => "one_splice_static_rerank",
            AsrDecodingStrategy::ParakeetJaCtcGreedy => "parakeet_ctc_greedy",
            AsrDecodingStrategy::ParakeetJaTdtVariableDag(_) => "parakeet_tdt_variable_dag",
        }
    }

    /// The beam width of a beam decoder.
    pub fn beam_size(self) -> (r: Option<usize>)
        ensures
            r == spec_beam_size(self),
    {
        match self {
            AsrDecodingStrategy::Greedy | AsrDecodingStrategy::ParakeetJaCtcGreedy => None,
            AsrDecodingStrategy::ReazonModifiedBeam { beam_size }
            | AsrDecodingStrategy::ReazonOneSpliceRerank { beam_size, .. } => Some(beam_size),
            AsrDecodingStrategy::ReazonModifiedBeamAblation(config) => Some(config.beam_size),
            AsrDecodingStrategy::ParakeetJaTdtVariableDag(config) => Some(config.beam_size),
        }
    }

    /// The effective modified-beam search of a `ReazonSpeech` beam decoder.
    pub fn reazon_ablation(self) -> (r: Option<ReazonBeamAblation>)
        ensures
            r == spec_reazon_ablation(self),
    {
        match self {
            AsrDecodingStrategy::ReazonModifiedBeamAblation(config) => Some(config),
            AsrDecodingStrategy::ReazonModifiedBeam { beam_size } => Some(
                ReazonBeamAblation::production(beam_size),
            ),
            _ => None,
        }
    }
}

/// The engine to construct, with the decoder settings it is given.
#[derive(Debug, Clone, Copy, PartialEq, Eq, Structural)]
pub enum AsrEnginePlan {
    Reazon { decoding: ReazonDecodingStrategy },
    ParakeetSharedCtc,
    ParakeetTdtDag { config: FusedTdtDagConfig, ctc_gate: CtcGateThreshold },
    NvidiaTdt,
    Nemotron,
}

pub open spec fn is_reazon_decoding(decoding: AsrDecodingStrategy) -> bool {
    ||| decoding is ReazonModifiedBeam
    ||| decoding is ReazonOneSpliceRerank
    ||| decoding is ReazonModifiedBeamAblation
}

pub open spec fn is_parakeet_decoding(decoding: AsrDecodingStrategy) -> bool {
    decoding is ParakeetJaCtcGreedy || decoding is ParakeetJaTdtVariableDag
}

/// The refusal of a non-empty hotword list, if the model and decoder do not
/// take hotwords.
pub open spec fn hotword_refusal(model: AsrModel, decoding: AsrDecodingStrategy) -> Option<
    EngineBuildError,
> {
    if model == AsrModel::ReazonSpeechK2V2 {
        if decoding is Greedy {
            Some(EngineBuildError::ReazonHotwordsNeedBeam)
        } else {
            None
        }
    } else if model == AsrModel::NemoParakeetTdtCtc0_6BJa35000Int8 {
        if decoding is ParakeetJaTdtVariableDag {
            None
        } else {
            Some(EngineBuildError::ParakeetHotwordsNeedTdtDag)
        }
    } else {
        Some(EngineBuildError::HotwordsUnsupported { model })
    }
}

/// The `ReazonSpeech` decoder of a host strategy that the model accepts.
pub open spec fn spec_reazon_decoding(decoding: AsrDecodingStrategy) -> ReazonDecodingStrategy {
    match decoding {
        AsrDecodingStrategy::ReazonModifiedBeam { beam_size } => ReazonDecodingStrategy::ModifiedBeam {
            beam_size,
        },
        AsrDecodingStrategy::ReazonOneSpliceRerank { beam_size, retained_candidates } =>
            ReazonDecodingStrategy::OneSpliceRerank { beam_size, retained_candidates },
        AsrDecodingStrategy::ReazonModifiedBeamAblation(config) =>
            ReazonDecodingStrategy::ModifiedBeamAblation { config },
        _ => ReazonDecodingStrategy::Greedy,
    }
}

/// The engine of each model family once the cross-family checks passed.
pub open spec fn spec_engine_for(
    model: AsrModel,
    precision: AsrPrecision,
    decoding: AsrDecodingStrategy,
) -> Result<AsrEnginePlan, EngineBuildError> {
    match spec_implementation(model) {
        AsrModelImplementation::ReazonSpeechK2 => Ok(
            AsrEnginePlan::Reazon { decoding: spec_reazon_decoding(decoding) },
        ),
        AsrModelImplementation::NemoParakeetTdtCtc => match decoding {
            AsrDecodingStrategy::ParakeetJaTdtVariableDag(config) => if precision
                != AsrPrecision::Int8 {
                Err(EngineBuildError::ParakeetHybridNeedsInt8)
            } else {
                Ok(
                    AsrEnginePlan::ParakeetTdtDag {
                        config: FusedTdtDagConfig {
                            beam_size: config.beam_size,
                            max_symbols_per_step: NVIDIA_GREEDY_MAX_SYMBOLS_PER_STEP,
                            duration_expansion: FusedTdtDurationExpansion::Argmax,
                        },
                        ctc_gate: config.ctc_gate,
                    },
                )
            },
            _ => if precision != AsrPrecision::Int8 {
                Err(EngineBuildError::ParakeetSharedCtcNeedsInt8)
            } else {
                Ok(AsrEnginePlan::ParakeetSharedCtc)
            },
        },
        AsrModelImplementation::NemoParakeetTdt => if decoding is Greedy {
            Ok(AsrEnginePlan::NvidiaTdt)
        } else {
            Err(EngineBuildError::OnlyDefaultDecoding { model })
        },
        AsrModelImplementation::Nemotron => if decoding is Greedy {
            Ok(AsrEnginePlan::Nemotron)
        } else {
            Err(EngineBuildError::OnlyDefaultDecoding { model })
        },
    }
}

/// Decoder/model compatibility first, then the TDT-DAG configuration, then
/// the hotwords, then the family's own precision and decoder limits.
pub open spec fn spec_plan_engine(
    model: AsrModel,
    precision: AsrPrecision,
    decoding: AsrDecodingStrategy,
    hotword_count: nat,
) -> Result<AsrEnginePlan, EngineBuildError> {
    if is_reazon_decoding(decoding) && model != AsrModel::ReazonSpeechK2V2 {
        Err(EngineBuildError::ReazonDecodingForOtherModel { model })
    } else if is_parakeet_decoding(decoding) && model != AsrModel::NemoParakeetTdtCtc0_6BJa35000Int8 {
        Err(EngineBuildError::ParakeetDecodingForOtherModel { model })
    } else if decoding is ParakeetJaTdtVariableDag && spec_validate(
        decoding->ParakeetJaTdtVariableDag_0,
    ) is Err {
        Err(spec_validate(decoding->ParakeetJaTdtVariableDag_0)->Err_0)
    } else if hotword_count > 0 && hotword_refusal(model, decoding) is Some {
        Err(hotword_refusal(model, decoding).unwrap())
    } else {
        spec_engine_for(model, precision, decoding)
    }
}

/// `ReazonSpeech` K2 v2 keeps the host's decoder with all its settings: every
/// Reazon strategy, and greedy decoding without hotwords, is planned as the
/// same `ReazonSpeech` strategy at any precision, and the Parakeet decoders
/// are refused.
pub proof fn lemma_reazon_plan_keeps_strategy(
    precision: AsrPrecision,
    decoding: AsrDecodingStrategy,
    hotword_count: nat,
)
    ensures
        ({
            let plan = spec_plan_engine(AsrModel::ReazonSpeechK2V2, precision, decoding, hotword_count);
            match decoding {
                AsrDecodingStrategy::ReazonModifiedBeam { beam_size } => plan == Ok::<
                    AsrEnginePlan,
                    EngineBuildError,
                >(AsrEnginePlan::Reazon { decoding: ReazonDecodingStrategy::ModifiedBeam { beam_size } }),
                AsrDecodingStrategy::ReazonOneSpliceRerank { beam_size, retained_candidates } => plan == Ok::<
                    AsrEnginePlan,
                    EngineBuildError,
                >(
                    AsrEnginePlan::Reazon {
                        decoding: ReazonDecodingStrategy::OneSpliceRerank { beam_size, retained_candidates },
                    },
                ),
                AsrDecodingStrategy::ReazonModifiedBeamAblation(config) => plan == Ok::<
                    AsrEnginePlan,
                    EngineBuildError,
                >(AsrEnginePlan::Reazon { decoding: ReazonDecodingStrategy::ModifiedBeamAblation { config } }),
                AsrDecodingStrategy::Greedy => plan == if hotword_count > 0 {
                    Err::<AsrEnginePlan, EngineBuildError>(EngineBuildError::ReazonHotwordsNeedBeam)
                } else {
                    Ok(AsrEnginePlan::Reazon { decoding: ReazonDecodingStrategy::Greedy })
                },
                _ => plan == Err::<AsrEnginePlan, EngineBuildError>(
                    EngineBuildError::ParakeetDecodingForOtherModel { model: AsrModel::ReazonSpeechK2V2 },
                ),
            }
        }),
{
}

/// Chooses the engine for a model, precision, decoder and number of
/// hotwords, refusing every combination the engines do not serve.
pub fn plan_engine(
    model: AsrModel,
    precision: AsrPrecision,
    decoding: AsrDecodingStrategy,
    hotword_count: usize,
) -> (r: Result<AsrEnginePlan, EngineBuildError>)
    ensures
        r == spec_plan_engine(model, precision, decoding, hotword_count as nat),
{
    let reazon_decoding = match decoding {
        AsrDecodingStrategy::ReazonModifiedBeam { .. }
        | AsrDecodingStrategy::ReazonOneSpliceRerank { .. }
        | AsrDecodingStrategy::ReazonModifiedBeamAblation(_) => true,
        _ => false,
    };
    if reazon_decoding && model != AsrModel::ReazonSpeechK2V2 {
        return Err(EngineBuildError::ReazonDecodingForOtherModel { model });
    }
    let parakeet_decoding = match decoding {
        AsrDecodingStrategy::ParakeetJaCtcGreedy | AsrDecodingStrategy::ParakeetJaTdtVariableDag(_) => true,
        _ => false,
    };
    if parakeet_decoding && model != AsrModel::NemoParakeetTdtCtc0_6BJa35000Int8 {
        return Err(EngineBuildError::ParakeetDecodingForOtherModel { model });
    }
    if let AsrDecodingStrategy::ParakeetJaTdtVariableDag(config) = decoding {
        if let Err(error) = config.validate() {
            return Err(error);
        }
    }
    if hotword_count > 0 {
        match model {
            AsrModel::ReazonSpeechK2V2 => {
                if let AsrDecodingStrategy::Greedy = decoding {
                    return Err(EngineBuildError::ReazonHotwordsNeedBeam);
                }
            },
            AsrModel::NemoParakeetTdtCtc0_6BJa35000Int8 => {
                match decoding {
                    AsrDecodingStrategy::ParakeetJaTdtVariableDag(_) => {},
                    _ => {
                        return Err(EngineBuildError::ParakeetHotwordsNeedTdtDag);
                    },
                }
            },
            _ => {
                return Err(EngineBuildError::HotwordsUnsupported { model });
            },
        }
    }
    let is_greedy = match decoding {
        AsrDecodingStrategy::Greedy => true,
        _ => false,
    };
    match model {
        AsrModel::ReazonSpeechK2V2 => {
            let reazon = match decoding {
                AsrDecodingStrategy::ReazonModifiedBeam { beam_size } => ReazonDecodingStrategy::ModifiedBeam {
                    beam_size,
                },
                AsrDecodingStrategy::ReazonOneSpliceRerank { beam_size, retained_candidates } =>
                    ReazonDecodingStrategy::OneSpliceRerank { beam_size, retained_candidates },
                AsrDecodingStrategy::ReazonModifiedBeamAblation(config) =>
                    ReazonDecodingStrategy::ModifiedBeamAblation { config },
                _ => ReazonDecodingStrategy::Greedy,
            };
            Ok(AsrEnginePlan::Reazon { decoding: reazon })
        },
        AsrModel::NemoParakeetTdtCtc0_6BJa35000Int8 => {
            let int8 = match precision {
                AsrPrecision::Int8 => true,
                _ => false,
            };
            match decoding {
                AsrDecodingStrategy::ParakeetJaTdtVariableDag(config) => {
                    if !int8 {
                        return Err(EngineBuildError::ParakeetHybridNeedsInt8);
                    }
                    Ok(
                        AsrEnginePlan::ParakeetTdtDag {
                            config: FusedTdtDagConfig {
                                beam_size: config.beam_size,
                                max_symbols_per_step: NVIDIA_GREEDY_MAX_SYMBOLS_PER_STEP,
                                duration_expansion: FusedTdtDurationExpansion::Argmax,
                            },
                            ctc_gate: config.ctc_gate,
                        },
                    )
                },
                _ => {
                    if !int8 {
                        return Err(EngineBuildError::ParakeetSharedCtcNeedsInt8);
                    }
                    Ok(AsrEnginePlan::ParakeetSharedCtc)
                },
            }
        },
        AsrModel::NemoParakeetTdt0_6BV2Int8 | AsrModel::NemoParakeetTdt0_6BV3Int8 => {
            if !is_greedy {
                return Err(EngineBuildError::OnlyDefaultDecoding { model });
            }
            Ok(AsrEnginePlan::NvidiaTdt)
        },
        _ => {
            if !is_greedy {
                return Err(EngineBuildError::OnlyDefaultDecoding { model });
            }
            Ok(AsrEnginePlan::Nemotron)
        },
    }
}

pub open spec fn spec_message(error: EngineBuildError) -> Seq<char> {
    match error {
        EngineBuildError::ReazonDecodingForOtherModel { model } =>
            "Reazon modified beam search cannot decode "@ + spec_debug_name(model),
        EngineBuildError::ParakeetDecodingForOtherModel { model } =>
            "Japanese Parakeet decoding cannot decode "@ + spec_debug_name(model),
        EngineBuildError::ZeroParakeetBeam => "Parakeet TDT DAG beam size must be positive"@,
        EngineBuildError::InadmissibleCtcGateThreshold =>
            "Parakeet CTC hotword gate threshold must be finite and non-positive"@,
        EngineBuildError::ReazonHotwordsNeedBeam => "Reazon hotwords require beam decoding"@,
        EngineBuildError::ParakeetHotwordsNeedTdtDag =>
            "Japanese Parakeet hotwords require TDT DAG decoding"@,
        EngineBuildError::HotwordsUnsupported { model } => "hotwords cannot decode "@
            + spec_debug_name(model),
        EngineBuildError::ParakeetSharedCtcNeedsInt8 =>
            "Japanese Parakeet shared CTC backend only supports int8"@,
        EngineBuildError::ParakeetHybridNeedsInt8 =>
            "Japanese Parakeet hybrid backend only supports the int8 export"@,
        EngineBuildError::OnlyDefaultDecoding { model } =>
            "default decoding is the only supported strategy for "@ + spec_debug_name(model),
    }
}

impl EngineBuildError {
    /// The error's text.
    pub fn message(&self) -> (r: String)
        ensures
            r@ == spec_message(*self),
    {
        let mut text = String::new();
        match *self {
            EngineBuildError::ReazonDecodingForOtherModel { model } => {
                append_str(&mut text, "Reazon modified beam search cannot decode ");
                append_str(&mut text, model.debug_name());
            },
            EngineBuildError::ParakeetDecodingForOtherModel { model } => {
                append_str(&mut text, "Japanese Parakeet decoding cannot decode ");
                append_str(&mut text, model.debug_name());
            },
            EngineBuildError::ZeroParakeetBeam => {
                append_str(&mut text, "Parakeet TDT DAG beam size must be positive");
            },
            EngineBuildError::InadmissibleCtcGateThreshold => {
                append_str(
                    &mut text,
                    "Parakeet CTC hotword gate threshold must be finite and non-positive",
                );
            },
            EngineBuildError::ReazonHotwordsNeedBeam => {
                append_str(&mut text, "Reazon hotwords require beam decoding");
            },
            EngineBuildError::ParakeetHotwordsNeedTdtDag => {
                append_str(&mut text, "Japanese Parakeet hotwords require TDT DAG decoding");
            },
            EngineBuildError::HotwordsUnsupported { model } => {
                append_str(&mut text, "hotwords cannot decode ");
                append_str(&mut text, model.debug_name());
            },
            EngineBuildError::ParakeetSharedCtcNeedsInt8 => {
                append_str(&mut text, "Japanese Parakeet shared CTC backend only supports int8");
            },
            EngineBuildError::ParakeetHybridNeedsInt8 => {
                append_str(&mut text, "Japanese Parakeet hybrid backend only supports the int8 export");
            },
            EngineBuildError::OnlyDefaultDecoding { model } => {
                append_str(&mut text, "default decoding is the only supported strategy for ");
                append_str(&mut text, model.debug_name());
            },
        }
        text
    }
}

/// Whether a plan builds the engine of the model's own family.
pub open spec fn plan_serves(plan: AsrEnginePlan, implementation: AsrModelImplementation) -> bool {
    match plan {
        AsrEnginePlan::Reazon { .. } => implementation == AsrModelImplementation::ReazonSpeechK2,
        AsrEnginePlan::ParakeetSharedCtc | AsrEnginePlan::ParakeetTdtDag { .. } => implementation
            == AsrModelImplementation::NemoParakeetTdtCtc,
        AsrEnginePlan::NvidiaTdt => implementation == AsrModelImplementation::NemoParakeetTdt,
        AsrEnginePlan::Nemotron => implementation == AsrModelImplementation::Nemotron,
    }
}

/// Every model can be built with default decoding at its default precision
/// and no hotwords, and an accepted plan always builds the engine of the
/// model's own family.
pub proof fn lemma_plans_serve_the_model_family(
    model: AsrModel,
    precision: AsrPrecision,
    decoding: AsrDecodingStrategy,
    hotword_count: nat,
)
    ensures
        spec_plan_engine(model, spec_default_precision(model), AsrDecodingStrategy::Greedy, 0) is Ok,
        spec_plan_engine(model, precision, decoding, hotword_count) matches Ok(plan) ==> plan_serves(
            plan,
            spec_implementation(model),
        ),
{
}

/// Hotwords are only ever accepted by a `ReazonSpeech` beam decoder or by the
/// Japanese Parakeet TDT DAG.
pub proof fn lemma_hotwords_need_a_biasable_decoder(
    model: AsrModel,
    precision: AsrPrecision,
    decoding: AsrDecodingStrategy,
    hotword_count: nat,
)
    requires
        hotword_count > 0,
        spec_plan_engine(model, precision, decoding, hotword_count) is Ok,
    ensures
        (model == AsrModel::ReazonSpeechK2V2 && !(decoding is Greedy)) || (model
            == AsrModel::NemoParakeetTdtCtc0_6BJa35000Int8 && decoding is ParakeetJaTdtVariableDag),
{
}


/// Whether the CTC head is loaded to gate hotwords: only when some hotword
/// is registered and a gate threshold is set.
pub fn uses_ctc_hotword_gate(hotword_count: usize, gate: CtcGateThreshold) -> (r: bool)
    ensures
        r == (hotword_count > 0 && gate != CtcGateThreshold::Disabled),
{
    hotword_count > 0 && !matches!(gate, CtcGateThreshold::Disabled)
}

/// The artifacts the TDT-DAG engine needs: the base export, and the CTC
/// head when it gates hotwords.
pub fn tdt_dag_required_file_names(hotword_count: usize, gate: CtcGateThreshold) -> (r: &'static [&'static str])
    ensures
        str_table_view(r) == if hotword_count > 0 && gate != CtcGateThreshold::Disabled {
            hybrid_required_files() + hybrid_ctc_gate_required_files()
        } else {
            hybrid_required_files()
        },
{
    if uses_ctc_hotword_gate(hotword_count, gate) {
        let r: &'static [&'static str] = &[
            "encoder-model.int8.onnx",
            "encoder-model.int8.onnx.data",
            "decoder_joint-model.onnx",
            "vocab.txt",
            "ctc-head-model.onnx",
            "ctc-head-model.onnx_data",
        ];
        assert(str_table_view(r) =~= hybrid_required_files() + hybrid_ctc_gate_required_files());
        r
    } else {
        hybrid_required_file_table()
    }
}

} // verus!
