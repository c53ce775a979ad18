use parapper_models::backend::direct_ort;
use parapper_models::backend::direct_tdt::{self, TdtContract};
use parapper_models::backend::factory::{
    plan_engine, AsrDecodingStrategy, AsrEnginePlan, CtcGateThreshold, EngineBuildError,
    ParakeetJaTdtDagConfig,
};
use parapper_models::backend::nemotron::{
    self, detokenize_cjk_tokens, is_cjk, NemotronContract, NemotronPromptIds,
    ENGLISH_CACHE_CHANNEL_FRAMES, MULTILINGUAL_CACHE_CHANNEL_FRAMES,
};
use parapper_models::backend::parakeet::{
    self, dag_child_route, dag_emission_symbols, joining_continuation_tokens,
    update_sequence_hash, validate_fused_tdt_dag_request, DagRoute, FusedTdtDagConfig,
    FusedTdtDagError, FusedTdtDagMergeAblation, FusedTdtDagMergeOrder, FusedTdtDagStats,
    FusedTdtDurationExpansion, FusedTdtHotwordCandidatePolicy, FNV_OFFSET_BASIS, FNV_PRIME,
};
use parapper_models::backend::reazon::{
    self, ablation_decoder_config, model_files, validate_decoding_strategy,
    ReazonDecodingStrategy, ReazonStrategyError, UNKNOWN_ID,
};
use parapper_models::backend::reazon_rerank::{one_splice_sequences, state_at};
use parapper_models::backend::token_table::{parse_token_table, TokenSeparator, TokenTableError};
use parapper_models::backend::{
    required_model_file_names, ReazonBeamAblation, ReazonBeamPruning, ReazonInitialContext,
    ReazonNetworkBatching, UnsupportedModel, REAZON_PRODUCTION_BEAM_SIZE,
};
use parapper_models::decoder::rnnt::{
    StatelessRnntLengthNormalization, StatelessRnntPruning,
};
use parapper_models::{AsrLanguage, AsrModel, AsrPrecision};

const ALL_MODELS: [AsrModel; 14] = [
    AsrModel::ReazonSpeechK2V2,
    AsrModel::NemoParakeetTdtCtc0_6BJa35000Int8,
    AsrModel::NemoParakeetTdt0_6BV2Int8,
    AsrModel::NemoParakeetTdt0_6BV3Int8,
    AsrModel::NemotronSpeechStreamingEn0_6B80MsInt8,
    AsrModel::NemotronSpeechStreamingEn0_6B160MsInt8,
    AsrModel::NemotronSpeechStreamingEn0_6B320MsInt8,
    AsrModel::NemotronSpeechStreamingEn0_6B560MsInt8,
    AsrModel::NemotronSpeechStreamingEn0_6B1120MsInt8,
    AsrModel::Nemotron3_5AsrStreaming0_6B80MsInt8,
    AsrModel::Nemotron3_5AsrStreaming0_6B160MsInt8,
    AsrModel::Nemotron3_5AsrStreaming0_6B320MsInt8,
    AsrModel::Nemotron3_5AsrStreaming0_6B560MsInt8,
    AsrModel::Nemotron3_5AsrStreaming0_6B1120MsInt8,
];

#[test]
fn every_direct_backend_exposes_the_artifacts_the_host_must_download() {
    for model in [
        AsrModel::ReazonSpeechK2V2,
        AsrModel::NemoParakeetTdtCtc0_6BJa35000Int8,
        AsrModel::NemoParakeetTdt0_6BV2Int8,
        AsrModel::NemoParakeetTdt0_6BV3Int8,
        AsrModel::NemotronSpeechStreamingEn0_6B160MsInt8,
        AsrModel::NemotronSpeechStreamingEn0_6B560MsInt8,
        AsrModel::Nemotron3_5AsrStreaming0_6B160MsInt8,
        AsrModel::Nemotron3_5AsrStreaming0_6B560MsInt8,
    ] {
        let names = required_model_file_names(model, AsrPrecision::Int8);
        assert!(!names.is_empty(), "{model:?} must declare its artifacts");
        assert!(
            names.iter().all(|name| !name.is_empty()),
            "{model:?} contains an empty artifact name"
        );
        assert!(
            matches!(names.last(), Some(&"tokens.txt" | &"vocab.txt")),
            "{model:?} must expose its token table"
        );
    }
}

#[test]
fn parakeet_fast_strategy_requires_the_shared_encoder_and_ctc_head_contract() {
    assert_eq!(
        required_model_file_names(AsrModel::NemoParakeetTdtCtc0_6BJa35000Int8, AsrPrecision::Int8,),
        [
            "encoder-model.int8.onnx",
            "encoder-model.int8.onnx.data",
            "ctc-head-model.onnx",
            "ctc-head-model.onnx_data",
            "vocab.txt",
        ]
    );
}

#[test]
fn every_nemotron_family_supports_the_full_80_to_1120ms_latency_grid() {
    let cases = [
        (AsrModel::NemotronSpeechStreamingEn0_6B80MsInt8, 17, 8, false),
        (AsrModel::NemotronSpeechStreamingEn0_6B160MsInt8, 25, 16, false),
        (AsrModel::NemotronSpeechStreamingEn0_6B320MsInt8, 41, 32, false),
        (AsrModel::NemotronSpeechStreamingEn0_6B560MsInt8, 65, 56, false),
        (AsrModel::NemotronSpeechStreamingEn0_6B1120MsInt8, 121, 112, false),
        (AsrModel::Nemotron3_5AsrStreaming0_6B80MsInt8, 17, 8, true),
        (AsrModel::Nemotron3_5AsrStreaming0_6B160MsInt8, 25, 16, true),
        (AsrModel::Nemotron3_5AsrStreaming0_6B320MsInt8, 41, 32, true),
        (AsrModel::Nemotron3_5AsrStreaming0_6B560MsInt8, 65, 56, true),
        (AsrModel::Nemotron3_5AsrStreaming0_6B1120MsInt8, 121, 112, true),
    ];

    for (model, window_frames, shift_frames, multilingual) in cases {
        let contract = NemotronContract::for_model(model).unwrap();
        assert_eq!(
            (contract.window_frames, contract.shift_frames),
            (window_frames, shift_frames)
        );
        assert_eq!(
            contract.cache_channel_frames,
            if multilingual {
                MULTILINGUAL_CACHE_CHANNEL_FRAMES
            } else {
                ENGLISH_CACHE_CHANNEL_FRAMES
            }
        );
    }
}

#[test]
fn multilingual_prompt_contract_uses_japanese_hint_and_defaults_to_auto() {
    let mut contract =
        NemotronContract::for_model(AsrModel::Nemotron3_5AsrStreaming0_6B160MsInt8).unwrap();
    contract.prompt_ids = Some(NemotronPromptIds {
        auto: 101,
        japanese: 10,
    });

    assert_eq!(contract.prompt_id(None), Some(101));
    assert_eq!(contract.prompt_id(Some(AsrLanguage::Japanese)), Some(10));
    assert_eq!(
        contract.prompt_id(Some(AsrLanguage::English)),
        Some(101),
        "only an explicitly requested Japanese completion route overrides auto detection"
    );
}

#[test]
fn cjk_detokenization_removes_only_internal_cjk_spaces() {
    let (text, _) = detokenize_cjk_tokens(&[" う ち no 中 学 ".to_string()]);

    assert_eq!(text, " うち no 中学 ");
}

#[test]
fn cjk_detokenization_splits_the_removed_space_by_token() {
    let tokens = vec![" う".to_string(), " ち".to_string(), " no".to_string()];
    let (text, per_token) = detokenize_cjk_tokens(&tokens);
    assert_eq!(text, " うち no");
    assert_eq!(per_token, vec![" う".to_string(), "ち".to_string(), " no".to_string()]);
    assert_eq!(per_token.concat(), text);
}

#[test]
fn cjk_ranges_cover_kana_ideographs_and_hangul_only() {
    assert!(is_cjk('う'));
    assert!(is_cjk('ア'));
    assert!(is_cjk('中'));
    assert!(is_cjk('한'));
    assert!(!is_cjk('a'));
    assert!(!is_cjk(' '));
    assert!(!is_cjk('。'));
}

#[test]
fn nemotron_contract_refuses_other_families_and_sizes_its_cache() {
    assert_eq!(
        NemotronContract::for_model(AsrModel::ReazonSpeechK2V2),
        Err(UnsupportedModel {
            model: AsrModel::ReazonSpeechK2V2
        })
    );
    let english = NemotronContract::for_model(AsrModel::NemotronSpeechStreamingEn0_6B80MsInt8).unwrap();
    assert_eq!(english.blank_id, 1_024);
    assert_eq!(english.prompt_ids, None);
    assert_eq!(english.prompt_id(Some(AsrLanguage::Japanese)), None);
    assert_eq!(english.cache_channel_elements(), 24 * 70 * 1_024);
    let multilingual = NemotronContract::for_model(AsrModel::Nemotron3_5AsrStreaming0_6B80MsInt8).unwrap();
    assert_eq!(multilingual.blank_id, 13_087);
    assert_eq!(multilingual.cache_channel_elements(), 24 * 56 * 1_024);
}

#[test]
fn tdt_contract_puts_blank_after_the_vocabulary() {
    assert_eq!(
        TdtContract::for_model(AsrModel::NemoParakeetTdt0_6BV2Int8),
        Ok(TdtContract {
            blank_id: 1_024,
            vocab_size: 1_024,
            joiner_width: 1_030
        })
    );
    assert_eq!(
        TdtContract::for_model(AsrModel::NemoParakeetTdt0_6BV3Int8),
        Ok(TdtContract {
            blank_id: 8_192,
            vocab_size: 8_192,
            joiner_width: 8_198
        })
    );
    assert!(TdtContract::for_model(AsrModel::NemotronSpeechStreamingEn0_6B80MsInt8).is_err());
}

#[test]
fn reazon_files_follow_the_precision() {
    assert_eq!(
        model_files(AsrPrecision::Int8Float32),
        (
            "encoder-epoch-99-avg-1.int8.onnx",
            "decoder-epoch-99-avg-1.onnx",
            "joiner-epoch-99-avg-1.int8.onnx"
        )
    );
    assert_eq!(
        reazon::required_model_file_names(AsrPrecision::Float32),
        [
            "encoder-epoch-99-avg-1.onnx",
            "decoder-epoch-99-avg-1.onnx",
            "joiner-epoch-99-avg-1.onnx",
            "tokens.txt"
        ]
    );
    for model in ALL_MODELS {
        let names = required_model_file_names(model, AsrPrecision::Int8);
        assert!(matches!(names.last(), Some(&"tokens.txt" | &"vocab.txt")));
    }
}

#[test]
fn reazon_strategy_validation_rejects_zero_widths_beam_first() {
    assert_eq!(validate_decoding_strategy(ReazonDecodingStrategy::Greedy), Ok(()));
    assert_eq!(
        validate_decoding_strategy(ReazonDecodingStrategy::ModifiedBeam { beam_size: 0 }),
        Err(ReazonStrategyError::ZeroBeamSize)
    );
    assert_eq!(
        validate_decoding_strategy(ReazonDecodingStrategy::OneSpliceRerank {
            beam_size: 0,
            retained_candidates: 0
        }),
        Err(ReazonStrategyError::ZeroBeamSize)
    );
    assert_eq!(
        validate_decoding_strategy(ReazonDecodingStrategy::OneSpliceRerank {
            beam_size: 4,
            retained_candidates: 0
        }),
        Err(ReazonStrategyError::ZeroRetainedCandidates)
    );
    assert_eq!(
        validate_decoding_strategy(ReazonDecodingStrategy::ModifiedBeamAblation {
            config: ReazonBeamAblation::production(0)
        }),
        Err(ReazonStrategyError::ZeroBeamSize)
    );
}

#[test]
fn reazon_ablation_maps_to_the_stateless_search_contract() {
    let production = ablation_decoder_config(ReazonBeamAblation::production(4));
    assert_eq!(production.beam_size, 4);
    assert_eq!(production.initial_context, [0, 0]);
    assert_eq!(production.additional_non_emitting_id, None);
    assert_eq!(production.pruning, StatelessRnntPruning::StateDominance);
    assert!(production.deduplicate_contexts);
    assert_eq!(production.search_length_normalization, StatelessRnntLengthNormalization::Raw);
    assert_eq!(production.final_length_normalization, StatelessRnntLengthNormalization::PerToken);

    let sherpa = ablation_decoder_config(ReazonBeamAblation {
        beam_size: 2,
        initial_context: ReazonInitialContext::Sherpa,
        unknown_is_non_emitting: true,
        pruning: ReazonBeamPruning::Sherpa,
        network_batching: ReazonNetworkBatching::Sherpa,
    });
    assert_eq!(sherpa.initial_context, [-1, 0]);
    assert_eq!(sherpa.additional_non_emitting_id, Some(UNKNOWN_ID));
    assert_eq!(sherpa.pruning, StatelessRnntPruning::Sherpa);
    assert!(!sherpa.deduplicate_contexts);
}

#[test]
fn duplicate_predictor_pairs_share_one_joiner_row_without_dropping_histories() {
    let contexts = [[7, 8], [2, 3], [7, 8], [4, 5], [2, 3]];

    let (unique, rows) = reazon::unique_context_layout(&contexts);

    assert_eq!(unique, vec![[7, 8], [2, 3], [4, 5]]);
    assert_eq!(rows, vec![0, 1, 0, 2, 1]);
    assert_eq!(rows.iter().map(|&row| unique[row]).collect::<Vec<_>>(), contexts);
}

#[test]
fn one_splice_candidates_can_recombine_prefix_and_suffix_once() {
    let seeds = vec![vec![1, 2, 3, 4], vec![5, 2, 3, 6]];
    let candidates = one_splice_sequences(&seeds);

    assert_eq!(
        candidates,
        [[1, 2, 3, 4], [1, 2, 3, 6], [5, 2, 3, 4], [5, 2, 3, 6]]
            .into_iter()
            .map(Vec::from)
            .collect::<Vec<_>>()
    );
}

#[test]
fn one_splice_needs_the_same_last_two_tokens_and_count() {
    assert_eq!(state_at(&[1, 2, 3], 0), (0, 0, 0));
    assert_eq!(state_at(&[1, 2, 3], 1), (1, 0, 1));
    assert_eq!(state_at(&[1, 2, 3], 3), (3, 2, 3));
    let seeds = vec![vec![1, 2, 3], vec![4, 2, 5]];
    let candidates = one_splice_sequences(&seeds);
    assert_eq!(candidates, vec![vec![1, 2, 3], vec![4, 2, 5]]);
    assert!(one_splice_sequences(&Vec::new()).is_empty());
}

#[test]
fn normal_reazon_beam_uses_token_count_and_last_two_token_state_with_cached_contexts() {
    let effective = AsrDecodingStrategy::ReazonModifiedBeam { beam_size: 8 }
        .reazon_ablation()
        .expect("Reazon beam exposes its effective search contract");

    assert_eq!(effective.beam_size, 8);
    assert_eq!(effective.pruning, ReazonBeamPruning::StateDominance);
    assert_eq!(effective.network_batching, ReazonNetworkBatching::CachedUnique);
    assert_eq!(effective.initial_context, ReazonInitialContext::ModelReference);
    assert!(!effective.unknown_is_non_emitting);
}

#[test]
fn reazon_modified_beam_is_rejected_for_other_model_families_before_loading_files() {
    let error = plan_engine(
        AsrModel::NemoParakeetTdtCtc0_6BJa35000Int8,
        AsrPrecision::Int8,
        AsrDecodingStrategy::ReazonModifiedBeam { beam_size: 4 },
        0,
    )
    .err()
    .expect("the model/decoder mismatch must fail");

    assert_eq!(
        error.message(),
        "Reazon modified beam search cannot decode NemoParakeetTdtCtc0_6BJa35000Int8"
    );
}

#[test]
fn hotwords_are_rejected_before_loading_for_greedy_and_other_model_families() {
    let greedy_error = plan_engine(
        AsrModel::ReazonSpeechK2V2,
        AsrPrecision::Float32,
        AsrDecodingStrategy::Greedy,
        1,
    )
    .err()
    .expect("hotword greedy must fail before model loading");
    assert_eq!(greedy_error.message(), "Reazon hotwords require beam decoding");

    let family_error = plan_engine(
        AsrModel::NemoParakeetTdtCtc0_6BJa35000Int8,
        AsrPrecision::Int8,
        AsrDecodingStrategy::Greedy,
        1,
    )
    .err()
    .expect("another model family must reject Reazon hotwords before loading");
    assert_eq!(family_error.message(), "Japanese Parakeet hotwords require TDT DAG decoding");
}

#[test]
fn parakeet_strategy_rejects_another_model_before_artifact_loading() {
    let error = plan_engine(
        AsrModel::ReazonSpeechK2V2,
        AsrPrecision::Int8,
        AsrDecodingStrategy::ParakeetJaTdtVariableDag(ParakeetJaTdtDagConfig::production()),
        0,
    )
    .err()
    .expect("the model/decoder mismatch must fail");

    assert_eq!(error.message(), "Japanese Parakeet decoding cannot decode ReazonSpeechK2V2");
}

#[test]
fn parakeet_tdt_config_rejects_invalid_beam_and_gate_before_artifact_loading() {
    for config in [
        ParakeetJaTdtDagConfig {
            beam_size: 0,
            ctc_gate: CtcGateThreshold::Admissible,
        },
        ParakeetJaTdtDagConfig {
            beam_size: 2,
            ctc_gate: CtcGateThreshold::Inadmissible,
        },
    ] {
        let error = plan_engine(
            AsrModel::NemoParakeetTdtCtc0_6BJa35000Int8,
            AsrPrecision::Int8,
            AsrDecodingStrategy::ParakeetJaTdtVariableDag(config),
            0,
        )
        .err()
        .expect("the invalid Parakeet config must fail");
        assert!(error.message().contains("Parakeet"));
    }
}

#[test]
fn parakeet_hotwords_are_rejected_for_ctc_greedy_before_artifact_loading() {
    let error = plan_engine(
        AsrModel::NemoParakeetTdtCtc0_6BJa35000Int8,
        AsrPrecision::Int8,
        AsrDecodingStrategy::ParakeetJaCtcGreedy,
        1,
    )
    .err()
    .expect("CTC greedy cannot bias hotwords");
    assert_eq!(error.message(), "Japanese Parakeet hotwords require TDT DAG decoding");
}

#[test]
fn engine_plans_pick_the_family_engine_and_its_settings() {
    assert_eq!(
        plan_engine(
            AsrModel::ReazonSpeechK2V2,
            AsrPrecision::Int8Float32,
            AsrDecodingStrategy::ReazonModifiedBeam { beam_size: REAZON_PRODUCTION_BEAM_SIZE },
            2,
        ),
        Ok(AsrEnginePlan::Reazon {
            decoding: ReazonDecodingStrategy::ModifiedBeam { beam_size: 4 }
        })
    );
    assert_eq!(
        plan_engine(
            AsrModel::NemoParakeetTdtCtc0_6BJa35000Int8,
            AsrPrecision::Int8,
            AsrDecodingStrategy::ParakeetJaTdtVariableDag(ParakeetJaTdtDagConfig::production()),
            3,
        ),
        Ok(AsrEnginePlan::ParakeetTdtDag {
            config: FusedTdtDagConfig {
                beam_size: 2,
                max_symbols_per_step: 10,
                duration_expansion: FusedTdtDurationExpansion::Argmax
            },
            ctc_gate: CtcGateThreshold::Admissible
        })
    );
    assert_eq!(
        plan_engine(
            AsrModel::NemoParakeetTdtCtc0_6BJa35000Int8,
            AsrPrecision::Int8,
            AsrDecodingStrategy::Greedy,
            0,
        ),
        Ok(AsrEnginePlan::ParakeetSharedCtc)
    );
    assert_eq!(
        plan_engine(
            AsrModel::NemoParakeetTdtCtc0_6BJa35000Int8,
            AsrPrecision::Float32,
            AsrDecodingStrategy::ParakeetJaCtcGreedy,
            0,
        ),
        Err(EngineBuildError::ParakeetSharedCtcNeedsInt8)
    );
    assert_eq!(
        plan_engine(
            AsrModel::NemoParakeetTdtCtc0_6BJa35000Int8,
            AsrPrecision::Int8Float32,
            AsrDecodingStrategy::ParakeetJaTdtVariableDag(ParakeetJaTdtDagConfig::production()),
            0,
        ),
        Err(EngineBuildError::ParakeetHybridNeedsInt8)
    );
    assert_eq!(
        plan_engine(AsrModel::NemoParakeetTdt0_6BV3Int8, AsrPrecision::Int8, AsrDecodingStrategy::Greedy, 0),
        Ok(AsrEnginePlan::NvidiaTdt)
    );
    assert_eq!(
        plan_engine(
            AsrModel::Nemotron3_5AsrStreaming0_6B560MsInt8,
            AsrPrecision::Int8,
            AsrDecodingStrategy::Greedy,
            0,
        ),
        Ok(AsrEnginePlan::Nemotron)
    );
    let only_default = plan_engine(
        AsrModel::NemotronSpeechStreamingEn0_6B80MsInt8,
        AsrPrecision::Int8,
        AsrDecodingStrategy::ReazonModifiedBeam { beam_size: 4 },
        0,
    );
    assert_eq!(
        only_default,
        Err(EngineBuildError::ReazonDecodingForOtherModel {
            model: AsrModel::NemotronSpeechStreamingEn0_6B80MsInt8
        })
    );
    let hotword_family = plan_engine(
        AsrModel::NemotronSpeechStreamingEn0_6B80MsInt8,
        AsrPrecision::Int8,
        AsrDecodingStrategy::Greedy,
        1,
    )
    .unwrap_err();
    assert_eq!(hotword_family.message(), "hotwords cannot decode NemotronSpeechStreamingEn0_6B80MsInt8");
    for model in ALL_MODELS {
        assert!(plan_engine(model, model.default_precision(), AsrDecodingStrategy::Greedy, 0).is_ok());
    }
}

#[test]
fn decoding_strategy_labels_and_beam_widths() {
    assert_eq!(AsrDecodingStrategy::default(), AsrDecodingStrategy::Greedy);
    assert_eq!(AsrDecodingStrategy::Greedy.label(), "greedy");
    assert_eq!(AsrDecodingStrategy::Greedy.beam_size(), None);
    assert_eq!(
        AsrDecodingStrategy::ReazonOneSpliceRerank {
            beam_size: 4,
            retained_candidates: 2
        }
        .label(),
        "one_splice_static_rerank"
    );
    assert_eq!(AsrDecodingStrategy::ParakeetJaCtcGreedy.label(), "parakeet_ctc_greedy");
    let dag = AsrDecodingStrategy::ParakeetJaTdtVariableDag(ParakeetJaTdtDagConfig::production());
    assert_eq!(dag.label(), "parakeet_tdt_variable_dag");
    assert_eq!(dag.beam_size(), Some(2));
    assert_eq!(dag.reazon_ablation(), None);
    assert_eq!(
        ParakeetJaTdtDagConfig {
            beam_size: 0,
            ctc_gate: CtcGateThreshold::Disabled
        }
        .validate()
        .unwrap_err()
        .message(),
        "Parakeet TDT DAG beam size must be positive"
    );
}

#[test]
fn fnv_sequence_hash_steps_match_the_wrapping_definition() {
    let expected = (FNV_OFFSET_BASIS ^ 8).wrapping_mul(FNV_PRIME);
    assert_eq!(update_sequence_hash(FNV_OFFSET_BASIS, 7), expected);
    assert_eq!(update_sequence_hash(0, usize::MAX), 0);
    assert_ne!(update_sequence_hash(FNV_OFFSET_BASIS, 1), update_sequence_hash(FNV_OFFSET_BASIS, 2));
}

#[test]
fn dag_defaults_are_the_production_search() {
    assert_eq!(FusedTdtDagMergeOrder::default(), FusedTdtDagMergeOrder::PruneThenMerge);
    let ablation = FusedTdtDagMergeAblation::default();
    assert_eq!(ablation.order, FusedTdtDagMergeOrder::PruneThenMerge);
    assert!(!ablation.include_symbols_since_advance_in_key);
    assert_eq!(FusedTdtDagStats::default().merge_calls, 0);
    assert_eq!(parakeet::hybrid_ctc_gate_required_file_table(), ["ctc-head-model.onnx", "ctc-head-model.onnx_data"]);
    assert_eq!(parakeet::hybrid_required_file_table().len(), 4);
}

fn complete_table(size: usize, blank: usize, blank_token: &str) -> String {
    let mut lines = (0..size).map(|id| format!("t{id} {id}")).collect::<Vec<_>>();
    lines[blank] = format!("{blank_token} {blank}");
    lines.join("\n") + "\n"
}

#[test]
fn token_contract_rejects_duplicate_gap_and_wrong_blank() {
    assert_eq!(
        direct_ort::parse_tokens("a 0\nb 0\n"),
        Err(TokenTableError::DuplicateId { id: 0 })
    );
    assert_eq!(
        direct_ort::parse_tokens("a 0\n<blk> 3072\n"),
        Err(TokenTableError::NotContiguous)
    );
    let wrong_blank = complete_table(direct_ort::CTC_VOCAB_SIZE, direct_ort::CTC_BLANK_ID, "wrong");
    assert_eq!(
        direct_ort::parse_tokens(&wrong_blank),
        Err(TokenTableError::SpecialTokenMismatch { id: direct_ort::CTC_BLANK_ID })
    );
    let complete = complete_table(direct_ort::CTC_VOCAB_SIZE, direct_ort::CTC_BLANK_ID, "<blk>");
    let tokens = direct_ort::parse_tokens(&complete).unwrap();
    assert_eq!(tokens.len(), direct_ort::CTC_VOCAB_SIZE);
    assert_eq!(tokens[7], "t7");
}

#[test]
fn token_table_lines_follow_str_lines_and_rsplit_once() {
    assert_eq!(
        parse_token_table("a b 1\r\n<x> 0", 2, TokenSeparator::Space),
        Ok(vec!["<x>".to_string(), "a b".to_string()])
    );
    assert_eq!(
        parse_token_table("a 0\nno-separator\n", 2, TokenSeparator::Space),
        Err(TokenTableError::InvalidLine { line_index: 1 })
    );
    assert_eq!(
        parse_token_table("a -1\n", 2, TokenSeparator::Space),
        Err(TokenTableError::InvalidId { line_index: 0 })
    );
    assert_eq!(
        parse_token_table("a +1\nb 00\n", 2, TokenSeparator::Space),
        Ok(vec!["b".to_string(), "a".to_string()])
    );
    assert_eq!(
        parse_token_table("a 99999999999999999999999\n", 2, TokenSeparator::Space),
        Err(TokenTableError::InvalidId { line_index: 0 })
    );
    assert_eq!(
        parse_token_table("a 5\n", 2, TokenSeparator::Space),
        Err(TokenTableError::IdOutOfRange { id: 5 })
    );
    assert_eq!(
        parse_token_table("a b\t1\nc 0\n", 2, TokenSeparator::TabOrSpace),
        Ok(vec!["c".to_string(), "a b".to_string()])
    );
    assert_eq!(parse_token_table("", 0, TokenSeparator::Space), Ok(Vec::new()));
    assert_eq!(
        parse_token_table("\n", 1, TokenSeparator::Space),
        Err(TokenTableError::InvalidLine { line_index: 0 })
    );
}

#[test]
fn model_token_tables_check_their_special_tokens() {
    let nemotron_table = complete_table(4, 3, "<blk>");
    assert_eq!(nemotron::parse_tokens(&nemotron_table, 3).unwrap().len(), 4);
    assert_eq!(
        nemotron::parse_tokens(&nemotron_table, 2),
        Err(TokenTableError::IdOutOfRange { id: 3 })
    );
    let tdt = TdtContract {
        blank_id: 3,
        vocab_size: 3,
        joiner_width: 9,
    };
    assert_eq!(direct_tdt::parse_tokens(&nemotron_table, tdt).unwrap()[3], "<blk>");
    let vocab = complete_table(parakeet::VOCAB_SIZE, parakeet::BLANK_ID, "<blk>");
    assert_eq!(parakeet::parse_vocab(&vocab).unwrap().len(), parakeet::VOCAB_SIZE);

    let mut reazon_lines = (0..reazon::VOCAB_SIZE)
        .map(|id| format!("t{id}\t{id}"))
        .collect::<Vec<_>>();
    reazon_lines[reazon::BLANK_ID] = format!("<blk>\t{}", reazon::BLANK_ID);
    reazon_lines[reazon::UNKNOWN_ID] = format!("<unk>\t{}", reazon::UNKNOWN_ID);
    reazon_lines[reazon::SOS_EOS_ID] = format!("<sos/eos>\t{}", reazon::SOS_EOS_ID);
    let good = reazon_lines.join("\n");
    assert_eq!(reazon::parse_tokens(&good).unwrap().len(), reazon::VOCAB_SIZE);
    reazon_lines[reazon::UNKNOWN_ID] = format!("unk\t{}", reazon::UNKNOWN_ID);
    assert_eq!(
        reazon::parse_tokens(&reazon_lines.join("\n")),
        Err(TokenTableError::SpecialTokenMismatch { id: reazon::UNKNOWN_ID })
    );
}

#[test]
fn fused_tdt_dag_requests_are_validated_in_order() {
    let config = FusedTdtDagConfig {
        beam_size: 4,
        max_symbols_per_step: 10,
        duration_expansion: FusedTdtDurationExpansion::All,
    };
    let injected = FusedTdtHotwordCandidatePolicy::InjectedAll;
    let direct = |acoustic_top_k| FusedTdtHotwordCandidatePolicy::DirectPreTopK { acoustic_top_k };
    assert_eq!(validate_fused_tdt_dag_request(6, 3, 2, true, config, false, injected), Ok(()));
    assert_eq!(
        validate_fused_tdt_dag_request(0, 0, 2, true, config, false, injected),
        Err(FusedTdtDagError::EncoderShape)
    );
    assert_eq!(
        validate_fused_tdt_dag_request(5, 3, 2, false, config, false, injected),
        Err(FusedTdtDagError::EncoderShape)
    );
    assert_eq!(
        validate_fused_tdt_dag_request(6, 3, 2, false, config, false, injected),
        Err(FusedTdtDagError::NonFiniteEncoder)
    );
    let zero_beam = FusedTdtDagConfig { beam_size: 0, ..config };
    assert_eq!(
        validate_fused_tdt_dag_request(6, 3, 2, true, zero_beam, false, injected),
        Err(FusedTdtDagError::ZeroBeam)
    );
    let zero_symbols = FusedTdtDagConfig { max_symbols_per_step: 0, ..config };
    assert_eq!(
        validate_fused_tdt_dag_request(6, 3, 2, true, zero_symbols, false, injected),
        Err(FusedTdtDagError::ZeroMaxSymbols)
    );
    assert_eq!(
        validate_fused_tdt_dag_request(6, 3, 2, true, config, false, direct(8)),
        Err(FusedTdtDagError::DirectPolicyWithoutGraph)
    );
    assert_eq!(
        validate_fused_tdt_dag_request(6, 3, 2, true, config, true, direct(3)),
        Err(FusedTdtDagError::AcousticWidthBelowBeam)
    );
    assert_eq!(validate_fused_tdt_dag_request(6, 3, 2, true, config, true, direct(4)), Ok(()));
    assert_eq!(
        FusedTdtDagError::ZeroBeam.message(),
        "fused TDT DAG beam size must be positive"
    );
}

#[test]
fn fused_tdt_dag_children_are_routed_and_symbol_limited() {
    assert_eq!(dag_child_route(3, 3, 10), DagRoute::SameFrame);
    assert_eq!(dag_child_route(5, 3, 10), DagRoute::Bucket(5));
    assert_eq!(dag_child_route(10, 3, 10), DagRoute::Completed);
    assert_eq!(dag_emission_symbols(7, 2, 10), Some(0));
    assert_eq!(dag_emission_symbols(7, 0, 10), Some(8));
    assert_eq!(dag_emission_symbols(9, 0, 10), None);
    assert_eq!(dag_emission_symbols(usize::MAX, 0, 10), None);
    assert_eq!(joining_continuation_tokens(&[3, 5], &[1, 3, 7, 9, 1], 8), vec![1, 7]);
    assert_eq!(joining_continuation_tokens(&[], &[], 8), Vec::<usize>::new());
}
