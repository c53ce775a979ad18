use parapper_models::backend::nemotron::{
    check_encoder_output, resolve_prompt_ids, NemotronOutputError, NemotronPromptError, NemotronPromptIds,
};
use parapper_models::backend::reazon::{
    plan_reazon_engine, ReazonDecodingStrategy, ReazonEngineError, ReazonEnginePlan, ReazonJoinerOutput,
    ReazonStrategyError,
};
use parapper_models::backend::ReazonBeamAblation;
use parapper_models::decoder::ctc::{extend_ctc_prefix, validate_ctc_strategy, CtcDecodingStrategy, CtcStrategyError};
use parapper_models::decoder::rnnt::first_overlong_sequence;
use parapper_models::AsrModel;

#[test]
fn reazon_engine_plans_follow_the_decoding_strategy() {
    let model = AsrModel::ReazonSpeechK2V2;
    assert_eq!(
        plan_reazon_engine(model, 4, ReazonDecodingStrategy::Greedy),
        Ok(ReazonEnginePlan {
            threads: 4,
            joiner_output: ReazonJoinerOutput::Logit,
            compact_output: false,
            loads_static_embedding: false,
        })
    );
    assert_eq!(
        plan_reazon_engine(model, 1, ReazonDecodingStrategy::ModifiedBeam { beam_size: 4 }),
        Ok(ReazonEnginePlan {
            threads: 1,
            joiner_output: ReazonJoinerOutput::LogProbability,
            compact_output: true,
            loads_static_embedding: false,
        })
    );
    assert_eq!(
        plan_reazon_engine(
            model,
            2,
            ReazonDecodingStrategy::OneSpliceRerank { beam_size: 4, retained_candidates: 2 }
        ),
        Ok(ReazonEnginePlan {
            threads: 2,
            joiner_output: ReazonJoinerOutput::LogProbability,
            compact_output: true,
            loads_static_embedding: true,
        })
    );
    assert_eq!(
        plan_reazon_engine(
            model,
            2,
            ReazonDecodingStrategy::ModifiedBeamAblation { config: ReazonBeamAblation::production(3) }
        ),
        Ok(ReazonEnginePlan {
            threads: 2,
            joiner_output: ReazonJoinerOutput::LogProbability,
            compact_output: false,
            loads_static_embedding: false,
        })
    );
    assert_eq!(ReazonJoinerOutput::LogProbability.name(), "log_probability");
    assert_eq!(ReazonJoinerOutput::Logit.name(), "logit");
}

#[test]
fn reazon_engine_refusals_are_checked_in_order() {
    assert_eq!(
        plan_reazon_engine(AsrModel::NemoParakeetTdt0_6BV3Int8, 0, ReazonDecodingStrategy::ModifiedBeam { beam_size: 0 }),
        Err(ReazonEngineError::UnsupportedModel)
    );
    assert_eq!(
        plan_reazon_engine(AsrModel::ReazonSpeechK2V2, 0, ReazonDecodingStrategy::ModifiedBeam { beam_size: 0 }),
        Err(ReazonEngineError::Strategy(ReazonStrategyError::ZeroBeamSize))
    );
    assert_eq!(
        plan_reazon_engine(
            AsrModel::ReazonSpeechK2V2,
            0,
            ReazonDecodingStrategy::OneSpliceRerank { beam_size: 2, retained_candidates: 0 }
        ),
        Err(ReazonEngineError::Strategy(ReazonStrategyError::ZeroRetainedCandidates))
    );
    assert_eq!(
        plan_reazon_engine(AsrModel::ReazonSpeechK2V2, -1, ReazonDecodingStrategy::Greedy),
        Err(ReazonEngineError::NoThreads)
    );
    assert_eq!(ReazonEngineError::NoThreads.message(), "ASR thread count must be greater than zero");
}

#[test]
fn nemotron_encoder_outputs_are_checked_in_order() {
    assert_eq!(check_encoder_output(&[1, 1024, 7], &[5]), Ok((7, 5)));
    assert_eq!(check_encoder_output(&[1, 1024, 7], &[7, 3]), Ok((7, 7)));
    assert_eq!(check_encoder_output(&[2, 1024, 7], &[5]), Err(NemotronOutputError::Shape));
    assert_eq!(check_encoder_output(&[1, 512, 7], &[5]), Err(NemotronOutputError::Shape));
    assert_eq!(check_encoder_output(&[1, 1024], &[5]), Err(NemotronOutputError::Shape));
    assert_eq!(check_encoder_output(&[1, 1024, -1], &[5]), Err(NemotronOutputError::OutputFrames));
    assert_eq!(check_encoder_output(&[1, 1024, 7], &[]), Err(NemotronOutputError::EncodedLength));
    assert_eq!(check_encoder_output(&[1, 1024, 7], &[-2]), Err(NemotronOutputError::EncodedLength));
    assert_eq!(check_encoder_output(&[1, 1024, 7], &[0]), Err(NemotronOutputError::LengthBeyondOutput));
    assert_eq!(check_encoder_output(&[1, 1024, 7], &[8]), Err(NemotronOutputError::LengthBeyondOutput));
}

#[test]
fn nemotron_prompt_ids_come_from_the_prompt_dictionary() {
    assert_eq!(
        resolve_prompt_ids(0, r#"{"auto": 0, "en": 1, "ja-JP": 7}"#),
        Ok(NemotronPromptIds { auto: 0, japanese: 7 })
    );
    assert_eq!(
        resolve_prompt_ids(3, r#"{"auto": 3, "ja": 4, "ja-JP": 7}"#),
        Ok(NemotronPromptIds { auto: 3, japanese: 4 })
    );
    assert_eq!(resolve_prompt_ids(0, "not json"), Err(NemotronPromptError::DictionaryInvalid));
    assert_eq!(resolve_prompt_ids(0, r#"{"ja": 4}"#), Err(NemotronPromptError::NoAutoEntry));
    assert_eq!(resolve_prompt_ids(1, r#"{"auto": 0, "ja": 4}"#), Err(NemotronPromptError::AutoMismatch));
    assert_eq!(resolve_prompt_ids(0, r#"{"auto": 0, "en": 1}"#), Err(NemotronPromptError::NoJapaneseEntry));
    assert_eq!(
        NemotronPromptError::AutoMismatch.message(),
        "Nemotron auto prompt metadata disagrees with its prompt dictionary"
    );
}

#[test]
fn ctc_beam_prefixes_extend_on_new_non_blank_labels() {
    assert_eq!(validate_ctc_strategy(CtcDecodingStrategy::Greedy), Ok(()));
    assert_eq!(validate_ctc_strategy(CtcDecodingStrategy::BatchedBeam { beam_size: 2 }), Ok(()));
    assert_eq!(
        validate_ctc_strategy(CtcDecodingStrategy::BatchedBeam { beam_size: 0 }),
        Err(CtcStrategyError::ZeroBeamSize)
    );
    assert_eq!(extend_ctc_prefix(&vec![3], &vec![0], 3, 4, 2, 0), (vec![3, 4], vec![0, 2]));
    assert_eq!(extend_ctc_prefix(&vec![3], &vec![0], 3, 3, 2, 0), (vec![3], vec![0]));
    assert_eq!(extend_ctc_prefix(&vec![3], &vec![0], 0, 0, 2, 0), (vec![3], vec![0]));
    assert_eq!(extend_ctc_prefix(&vec![3], &vec![0], 0, 3, 2, 0), (vec![3, 3], vec![0, 2]));
}

#[test]
fn fixed_transcripts_need_a_frame_per_token() {
    assert_eq!(first_overlong_sequence(2, &[vec![1], vec![1, 2]]), None);
    assert_eq!(first_overlong_sequence(2, &[vec![1], vec![1, 2, 3], vec![1, 2, 3, 4]]), Some(1));
    assert_eq!(first_overlong_sequence(0, &[]), None);
}
