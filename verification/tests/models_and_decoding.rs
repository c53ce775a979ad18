use parapper_models::decoder::ctc::CtcDecodingStrategy;
use parapper_models::decoder::rnnt::{
    active_prefix_index, check_compact_scores, validate_stateless_beam_request, StatelessBeamError, compact_top_count, materialize_survivors, pending_transition, plan_fixed_sequences,
    token_context_id, unique_context_layout, AlignmentArena, CompactScoreError, FixedSequenceError,
    MaterializedHypothesis, PendingPrefix, PendingSurvivor, StatelessRnntBeamConfig,
    StatelessRnntAlignedSeed, StatelessRnntLengthNormalization, StatelessRnntPruning,
    StatelessSearchState, TokenPrefixArena,
};
use parapper_models::decoder::context_graph::HotwordContextGraph;
use parapper_models::decoder::lattice::{
    approximate_lattice_structure, plan_lattice_requests, ApproximateLatticeError,
};
use parapper_models::decoder::hotword::{HotwordPathKind, HotwordTokenPath};
use parapper_models::frontend::{kaldi, nemo, nemo_streaming};
use parapper_models::mt::{LocalTranslationModel, TranslationLanguage};
use parapper_models::td::{slice_chars, GrammarBoundaryClass, TurnBoundaryCandidate};
use parapper_models::text::{append_str, chars_of, remove_whitespace, string_of, trimmed_chars};
use parapper_models::transcript::token_char_ranges_relative_to_trimmed_text;
use parapper_models::{
    AsrLanguage, AsrModel, AsrModelCapability, AsrModelImplementation, AsrPrecision,
    AsrStreamConfig, AsrStreamLanguage, StreamingSessionId, SAMPLE_RATE_HZ,
};

#[test]
fn model_facts_describe_language_precision_and_family() {
    let reazon = AsrModel::ReazonSpeechK2V2.info();
    assert_eq!(reazon.language, AsrLanguage::Japanese);
    assert_eq!(reazon.supported_language_codes, ["ja"]);
    assert_eq!(
        reazon.supported_precisions,
        [AsrPrecision::Int8, AsrPrecision::Int8Float32, AsrPrecision::Float32]
    );
    assert_eq!(reazon.default_precision, AsrPrecision::Int8Float32);
    assert_eq!(reazon.implementation, AsrModelImplementation::ReazonSpeechK2);
    assert_eq!(AsrModel::NemoParakeetTdt0_6BV3Int8.supported_language_codes().len(), 25);
    assert_eq!(AsrModel::Nemotron3_5AsrStreaming0_6B80MsInt8.supported_language_codes().len(), 29);
    assert!(AsrModel::ReazonSpeechK2V2.supports_precision(AsrPrecision::Float32));
    assert!(!AsrModel::NemoParakeetTdt0_6BV2Int8.supports_precision(AsrPrecision::Float32));
    assert_eq!(AsrModel::NemotronSpeechStreamingEn0_6B80MsInt8.capability(), AsrModelCapability::InterimOnly);
    assert!(AsrModel::NemotronSpeechStreamingEn0_6B80MsInt8.is_interim_only());
    assert!(!AsrModel::NemotronSpeechStreamingEn0_6B80MsInt8.supports_completion());
    assert!(AsrModel::NemoParakeetTdtCtc0_6BJa35000Int8.supports_completion());
    assert_eq!(
        AsrModel::Nemotron3_5AsrStreaming0_6B80MsInt8.stream_language(),
        AsrStreamLanguage::Nemotron35Auto
    );
    assert_eq!(AsrModel::NemoParakeetTdt0_6BV2Int8.stream_language(), AsrStreamLanguage::Unset);
    assert_eq!(AsrModel::ReazonSpeechK2V2.sort_key(), 0);
    assert_eq!(AsrModel::Nemotron3_5AsrStreaming0_6B80MsInt8.sort_key(), 5);
    assert!(AsrModel::Nemotron3_5AsrStreaming0_6B80MsInt8.is_nemotron());
    assert!(!AsrModel::NemoParakeetTdt0_6BV3Int8.is_nemotron());
    assert_eq!(AsrModel::ReazonSpeechK2V2.debug_name(), format!("{:?}", AsrModel::ReazonSpeechK2V2));
    assert_eq!(AsrModel::default(), AsrModel::ReazonSpeechK2V2);
    assert_eq!(AsrPrecision::default(), AsrPrecision::Int8Float32);
}

#[test]
fn default_models_follow_the_language() {
    assert_eq!(AsrModel::default_for_language(AsrLanguage::Japanese), AsrModel::ReazonSpeechK2V2);
    assert_eq!(AsrModel::default_for_language(AsrLanguage::English), AsrModel::NemoParakeetTdt0_6BV2Int8);
    assert_eq!(
        AsrModel::default_for_language(AsrLanguage::Multilingual),
        AsrModel::NemoParakeetTdt0_6BV3Int8
    );
    for language in [AsrLanguage::Japanese, AsrLanguage::English, AsrLanguage::EuropeanMultilingual] {
        assert_eq!(AsrModel::default_for_language(language).language(), language);
    }
}

#[test]
fn translation_codes_accept_locales_and_round_trip() {
    assert_eq!(TranslationLanguage::from_code(" EN-us "), Some(TranslationLanguage::En));
    assert_eq!(TranslationLanguage::from_code("ja_JP"), Some(TranslationLanguage::Ja));
    assert_eq!(TranslationLanguage::from_code("fr"), None);
    assert_eq!(TranslationLanguage::from_code(""), None);
    for language in [TranslationLanguage::En, TranslationLanguage::Ja] {
        assert_eq!(TranslationLanguage::from_code(language.as_code()), Some(language));
        assert_eq!(language.other().other(), language);
        assert_ne!(language.other(), language);
    }
    assert!(LocalTranslationModel::Lfm2Q4.is_available());
    assert_eq!(LocalTranslationModel::Lfm2Q4.onnx_file_name(), "onnx/model_q4.onnx");
    assert_eq!(LocalTranslationModel::CatTranslate0_8BQ4KQuant.sort_key(), 1);
}

#[test]
fn stream_identity_and_configuration_defaults() {
    let id = StreamingSessionId::new(7, Some(3));
    assert_eq!(id.scope, 7);
    assert_eq!(id.item, Some(3));
    let config = AsrStreamConfig::default();
    assert_eq!(config.speech_range_samples, None);
    assert_eq!(config.language_hint, None);
    assert_eq!(SAMPLE_RATE_HZ, 16_000);
}

#[test]
fn boundary_candidates_shift_into_the_enclosing_coordinates() {
    let candidate = TurnBoundaryCandidate {
        char_end: 3,
        sample_end: 100,
        prefix_audio_end: 90,
        suffix_audio_start: 110,
        class: GrammarBoundaryClass::StrongEnd,
    };
    let shifted = candidate.clone().offset_by(10, 1_000);
    assert_eq!(
        shifted,
        TurnBoundaryCandidate {
            char_end: 13,
            sample_end: 1_100,
            prefix_audio_end: 1_090,
            suffix_audio_start: 1_110,
            class: GrammarBoundaryClass::StrongEnd,
        }
    );
    assert_eq!(candidate.clone().offset_by(0, 0), candidate);
    assert_eq!(slice_chars("漢字🙂かな", 1..3), "字🙂");
    assert_eq!(slice_chars("abc", 2..10), "c");
    assert_eq!(slice_chars("abc", 5..9), "");
    assert_eq!(slice_chars("abc", 2..1), "");
}

#[test]
fn token_ranges_are_relative_to_the_trimmed_join() {
    let tokens = [" We", "ll", ",", " I", " don", "'", "t", "."].map(str::to_owned);
    let ranges = token_char_ranges_relative_to_trimmed_text(&tokens);
    assert_eq!(ranges[0], Some(0..2));
    assert_eq!(ranges[2], Some(4..5));
    assert_eq!(ranges[7], Some(13..14));
    let multibyte = ["  漢", "字", "🙂", "か", "な  "].map(str::to_owned);
    assert_eq!(
        token_char_ranges_relative_to_trimmed_text(&multibyte),
        vec![Some(0..1), Some(1..2), Some(2..3), Some(3..4), Some(4..5)]
    );
    let blank = [" ".to_string(), "a".to_string(), " ".to_string()];
    assert_eq!(token_char_ranges_relative_to_trimmed_text(&blank), vec![None, Some(0..1), None]);
}

#[test]
fn reflected_indices_mirror_without_repeating_the_edge() {
    assert_eq!(kaldi::reflect_index(-1, 4), 0);
    assert_eq!(kaldi::reflect_index(-2, 4), 1);
    assert_eq!(kaldi::reflect_index(4, 4), 3);
    assert_eq!(kaldi::reflect_index(5, 4), 2);
    assert_eq!(kaldi::reflect_index(2, 4), 2);
    assert_eq!(kaldi::reflect_index(8, 4), 0);
    assert_eq!(nemo_streaming::reflect_index(-3, 2), 1);
    assert_eq!(nemo_streaming::alignment_padding_samples(0, 160), 0);
    assert_eq!(nemo_streaming::alignment_padding_samples(161, 160), 159);
    assert_eq!(nemo_streaming::alignment_padding_samples(320, 160), 0);
}

#[test]
fn prefix_arena_interns_each_extension_once() {
    let mut arena = TokenPrefixArena::new([0, 0]);
    assert_eq!(arena.len(), 1);
    let a = arena.intern_child(0, 5);
    let b = arena.intern_child(a, 7);
    assert_eq!(arena.intern_child(0, 5), a);
    assert_eq!(arena.child(0, 5), Some(a));
    assert_eq!(arena.child(0, 7), None);
    assert_eq!(arena.len(), 3);
    assert_eq!(arena.token_ids(b), vec![5, 7]);
    assert_eq!(arena.token_ids(0), Vec::<usize>::new());

    let mut alignments = AlignmentArena::new();
    let first = alignments.push(0, 4);
    let second = alignments.push(first, 9);
    assert_eq!(alignments.timestamps(second), vec![4, 9]);
    assert_eq!(alignments.timestamps(0), Vec::<usize>::new());
}

#[test]
fn context_layout_and_active_prefix_lookup() {
    let (unique, rows) = unique_context_layout(&[[1, 2], [1, 2], [3, 4]]);
    assert_eq!(unique, vec![[1, 2], [3, 4]]);
    assert_eq!(rows, vec![0, 0, 1]);
    assert_eq!(active_prefix_index(&[(4, 0), (7, 1), (7, 2)], 7), Some(1));
    assert_eq!(active_prefix_index(&[(4, 0)], 9), None);
    assert_eq!(token_context_id(12), 12);
    assert_eq!(token_context_id(usize::MAX), i64::MAX);
}

#[test]
fn model_reference_search_uses_the_blank_context_and_state_dominance() {
    let config = StatelessRnntBeamConfig::model_reference(4, 0);
    assert_eq!(config.beam_size, 4);
    assert_eq!(config.initial_context, [0, 0]);
    assert_eq!(config.pruning, StatelessRnntPruning::StateDominance);
    assert!(config.deduplicate_contexts);
    assert_eq!(config.final_length_normalization, StatelessRnntLengthNormalization::PerToken);
    assert_eq!(StatelessRnntLengthNormalization::Raw.exponent_quarters(), 0);
    assert_eq!(StatelessRnntLengthNormalization::PerToken.exponent_quarters(), 4);
}

#[test]
fn fixed_sequence_plan_shares_contexts_and_requests_each_token_once() {
    let plan = plan_fixed_sequences(0, [0, 0], &[vec![3, 4], vec![3, 5]]).unwrap();
    assert_eq!(plan.contexts, vec![[0, 0], [0, 3], [3, 4], [3, 5]]);
    assert_eq!(plan.requested_token_ids, vec![vec![0, 3], vec![0, 4, 5], vec![0], vec![0]]);
    assert_eq!(plan.sequences[0].len(), 3);
    assert_eq!(plan.sequences[1][1].context_row, 1);
    assert_eq!(plan.sequences[1][1].next_token_column, Some(2));
    assert_eq!(plan.sequences[1][2].next_token_column, None);
    assert_eq!(
        plan_fixed_sequences(0, [0, 0], &[vec![usize::MAX]]).err(),
        Some(FixedSequenceError::TokenIdExceedsI64)
    );
}

#[test]
fn text_helpers_copy_trim_and_join_characters() {
    let chars = chars_of(" a b ");
    assert_eq!(string_of(&trimmed_chars(&chars)), "a b");
    assert_eq!(string_of(&remove_whitespace(&chars)), "ab");
    let mut text = String::from("x");
    append_str(&mut text, "yz");
    assert_eq!(text, "xyz");
    assert_eq!(CtcDecodingStrategy::BatchedBeam { beam_size: 2 }, CtcDecodingStrategy::BatchedBeam { beam_size: 2 });
}

#[test]
fn pending_transition_keeps_blank_and_extends_on_tokens() {
    let mut arena = TokenPrefixArena::new([0, 0]);
    let a = arena.intern_child(0, 5);

    let blank = pending_transition(&arena, a, 3, 0, 0, 7, None);
    assert_eq!(blank.prefix, PendingPrefix::Existing(a));
    assert_eq!(
        blank.state,
        StatelessSearchState { token_count: 1, context: [0, 5], hotword_state: 3 }
    );
    assert_eq!(blank.emitted_frame, None);
    assert_eq!(blank.hotword_step, None);

    let known = pending_transition(&arena, 0, 0, 5, 0, 2, None);
    assert_eq!(known.prefix, PendingPrefix::Existing(a));
    assert_eq!(known.state.context, [0, 5]);
    assert_eq!(known.emitted_frame, Some(2));

    let fresh = pending_transition(&arena, a, 9, 8, 0, 4, None);
    assert_eq!(fresh.prefix, PendingPrefix::New { parent: a, token_id: 8 });
    assert_eq!(
        fresh.state,
        StatelessSearchState { token_count: 2, context: [5, 8], hotword_state: 0 }
    );

    let path = HotwordTokenPath {
        tokens: vec![8, 9],
        entry_id: 0,
        surface: String::new(),
        kind: HotwordPathKind::Surface,
    };
    let graph = HotwordContextGraph::build(vec![path], &[true], &[true]).unwrap();
    let first = pending_transition(&arena, a, graph.root(), 8, 0, 4, Some(&graph));
    let step = first.hotword_step.unwrap();
    assert_eq!(step.matched, None);
    assert_ne!(first.state.hotword_state, graph.root());
    let second = pending_transition(&arena, a, first.state.hotword_state, 9, 0, 5, Some(&graph));
    assert!(second.hotword_step.unwrap().matched.is_some());
    assert_eq!(second.state.hotword_state, graph.root());
}

#[test]
fn materialize_survivors_interns_prefixes_and_alignments_in_order() {
    let mut arena = TokenPrefixArena::new([0, 0]);
    let a = arena.intern_child(0, 5);
    let mut alignments = AlignmentArena::new();
    let first = alignments.push(0, 1);
    let survivors = vec![
        PendingSurvivor {
            prefix: PendingPrefix::New { parent: a, token_id: 6 },
            hotword_state: 2,
            source_alignment_id: first,
            emitted_frame: Some(3),
        },
        PendingSurvivor {
            prefix: PendingPrefix::Existing(a),
            hotword_state: 0,
            source_alignment_id: first,
            emitted_frame: None,
        },
        PendingSurvivor {
            prefix: PendingPrefix::New { parent: a, token_id: 6 },
            hotword_state: 1,
            source_alignment_id: 0,
            emitted_frame: Some(3),
        },
    ];
    let kept = materialize_survivors(&survivors, &mut arena, &mut alignments).unwrap();
    assert_eq!(kept.len(), 3);
    assert_eq!(arena.token_ids(kept[0].prefix_id), vec![5, 6]);
    assert_eq!(kept[2].prefix_id, kept[0].prefix_id);
    assert_eq!(
        kept[1],
        MaterializedHypothesis { prefix_id: a, alignment_id: first, hotword_state: 0 }
    );
    assert_eq!(alignments.timestamps(kept[0].alignment_id), vec![1, 3]);
    assert_eq!(alignments.timestamps(kept[2].alignment_id), vec![3]);
    assert_eq!(kept[2].hotword_state, 1);
    assert_eq!(arena.len(), 3);

    let error = materialize_survivors(&Vec::new(), &mut arena, &mut alignments).unwrap_err();
    assert_eq!(error.message(), "stateless RNNT beam search produced no hypotheses");
}

#[test]
fn approximate_lattice_shares_states_and_arcs_across_candidates() {
    let seeds = [
        StatelessRnntAlignedSeed { token_ids: &[5, 6], emission_frames: &[1, 3] },
        StatelessRnntAlignedSeed { token_ids: &[5, 7], emission_frames: &[0, 2] },
    ];
    let lattice = approximate_lattice_structure(8, 4, 2, 0, [0, 0], &seeds).unwrap();
    let states: Vec<(usize, [i64; 2])> = lattice
        .nodes
        .iter()
        .map(|node| (node.state.token_count, node.state.context))
        .collect();
    assert_eq!(states, vec![(0, [0, 0]), (1, [0, 5]), (2, [5, 6]), (2, [5, 7])]);
    let arcs: Vec<Vec<(usize, usize)>> = lattice
        .nodes
        .iter()
        .map(|node| node.arcs.iter().map(|arc| (arc.token_id, arc.destination)).collect())
        .collect();
    assert_eq!(arcs, vec![vec![(5, 1)], vec![(6, 2), (7, 3)], vec![], vec![]]);
    let occurrences: Vec<(usize, usize, usize, usize)> = lattice
        .arc_occurrences
        .iter()
        .map(|o| (o.source, o.arc, o.segment_start, o.emission_frame))
        .collect();
    assert_eq!(occurrences, vec![(0, 0, 0, 1), (1, 0, 2, 3), (0, 0, 0, 0), (1, 1, 1, 2)]);
    let terminals: Vec<(usize, usize)> =
        lattice.terminal_occurrences.iter().map(|t| (t.node, t.segment_start)).collect();
    assert_eq!(terminals, vec![(2, 4), (3, 3)]);

    let plan = plan_lattice_requests(&lattice.nodes, 0);
    assert_eq!(plan.contexts, vec![[0, 0], [0, 5], [5, 6], [5, 7]]);
    assert_eq!(plan.requested_token_ids, vec![vec![0, 5], vec![0, 6, 7], vec![0], vec![0]]);
    assert_eq!(plan.node_context_rows, vec![0, 1, 2, 3]);
    assert_eq!(plan.arc_token_columns, vec![vec![1], vec![1, 2], vec![], vec![]]);
}

#[test]
fn approximate_lattice_rejects_invalid_candidates() {
    let check = |seed: StatelessRnntAlignedSeed| {
        approximate_lattice_structure(8, 4, 2, 0, [0, 0], &[seed]).err()
    };
    assert_eq!(
        approximate_lattice_structure(7, 4, 2, 0, [0, 0], &[]).err(),
        Some(ApproximateLatticeError::EncoderShape)
    );
    assert_eq!(
        approximate_lattice_structure(0, 0, 0, 0, [0, 0], &[]).err(),
        Some(ApproximateLatticeError::EncoderShape)
    );
    assert_eq!(
        check(StatelessRnntAlignedSeed { token_ids: &[5], emission_frames: &[] }),
        Some(ApproximateLatticeError::LengthMismatch)
    );
    assert_eq!(
        check(StatelessRnntAlignedSeed { token_ids: &[5, 0], emission_frames: &[1, 2] }),
        Some(ApproximateLatticeError::BlankInSeed)
    );
    assert_eq!(
        check(StatelessRnntAlignedSeed { token_ids: &[5, 6], emission_frames: &[2, 2] }),
        Some(ApproximateLatticeError::EmissionFrames)
    );
    assert_eq!(
        check(StatelessRnntAlignedSeed { token_ids: &[5], emission_frames: &[4] }),
        Some(ApproximateLatticeError::EmissionFrames)
    );
    assert_eq!(
        check(StatelessRnntAlignedSeed { token_ids: &[usize::MAX], emission_frames: &[1] }),
        Some(ApproximateLatticeError::TokenIdExceedsI64)
    );
    assert_eq!(
        ApproximateLatticeError::BlankInSeed.message(),
        "approximate lattice seed must not contain blank"
    );
    let empty = approximate_lattice_structure(8, 4, 2, 0, [3, 4], &[]).unwrap();
    assert_eq!(empty.nodes.len(), 1);
    assert_eq!(empty.nodes[0].state.context, [3, 4]);
    assert!(empty.arc_occurrences.is_empty() && empty.terminal_occurrences.is_empty());
}

#[test]
fn compact_scores_are_checked_row_by_row() {
    assert_eq!(compact_top_count(4, 10, None), 4);
    assert_eq!(compact_top_count(4, 4, Some(3)), 2);
    assert_eq!(compact_top_count(4, 1, Some(3)), 0);
    let requested = vec![vec![0, 5], vec![0]];
    let good = vec![vec![5, 6], vec![2, 7]];
    let check = |top: &[Vec<usize>], widths: &[usize], ordered: &[bool]| {
        check_compact_scores(top, widths, &requested, ordered, 2, 10, 2, 0, Some(9))
    };
    assert_eq!(check(&good, &[2, 1], &[true, true]), Ok(()));
    assert_eq!(check(&good[..1], &[2, 1], &[true]), Err(CompactScoreError::RowCount));
    assert_eq!(
        check(&[vec![5, 6], vec![2]], &[2, 1], &[true, true]),
        Err(CompactScoreError::Width { row: 1 })
    );
    assert_eq!(check(&good, &[2, 2], &[true, true]), Err(CompactScoreError::Width { row: 1 }));
    assert_eq!(
        check(&[vec![5, 0], vec![2, 7]], &[2, 1], &[true, true]),
        Err(CompactScoreError::NonEmittingToken { row: 0 })
    );
    assert_eq!(
        check(&[vec![5, 6], vec![9, 7]], &[2, 1], &[true, true]),
        Err(CompactScoreError::NonEmittingToken { row: 1 })
    );
    assert_eq!(
        check(&[vec![5, 6], vec![2, 10]], &[2, 1], &[true, true]),
        Err(CompactScoreError::NonEmittingToken { row: 1 })
    );
    assert_eq!(
        check(&[vec![5, 6], vec![2]], &[2, 1], &[false, true]),
        Err(CompactScoreError::Unordered { row: 0 })
    );
    assert_eq!(
        CompactScoreError::Unordered { row: 0 }.message(),
        "stateless RNNT compact TopK ordering changed"
    );
}

#[test]
fn feature_frame_counts_follow_the_front_end_strides() {
    assert_eq!(kaldi::kaldi_frame_count(16_000), 100);
    assert_eq!(kaldi::kaldi_frame_count(79), 0);
    assert_eq!(kaldi::kaldi_frame_count(80), 1);
    assert_eq!(kaldi::kaldi_frame_count(usize::MAX), usize::MAX / 160 + 1);
    assert_eq!(nemo::nemo_frame_counts(159), None);
    assert_eq!(nemo::nemo_frame_counts(16_000), Some((101, 100)));
    assert_eq!(nemo_streaming::complete_feature_frames(279), 0);
    assert_eq!(nemo_streaming::complete_feature_frames(280), 1);
    assert_eq!(nemo_streaming::complete_feature_frames(600), 3);
}

#[test]
fn stream_windows_are_scheduled_once_a_frame_follows_them() {
    let schedule = nemo_streaming::schedule_stream_windows(0, 4, 2, 9);
    assert_eq!(schedule.starts, vec![0, 2, 4]);
    assert_eq!(schedule.processed_frames, 6);
    let none = nemo_streaming::schedule_stream_windows(6, 4, 2, 10);
    assert!(none.starts.is_empty());
    assert_eq!(none.processed_frames, 6);
    assert_eq!(nemo_streaming::stream_finish_padding(0, 4, 0), 280 + 4 * 160);
    assert_eq!(nemo_streaming::stream_finish_padding(0, 4, 10_000), 0);
    assert_eq!(nemo_streaming::stream_finish_padding(usize::MAX, 4, 10), usize::MAX - 10);
}

#[test]
fn beam_search_requests_are_validated_in_order() {
    let config = StatelessRnntBeamConfig::model_reference(4, 0);
    let check = |len, frames, dim, vocab, blank, config, hotwords| {
        validate_stateless_beam_request(len, frames, dim, vocab, blank, config, hotwords)
    };
    assert_eq!(check(6, 3, 2, 10, 0, config, false), Ok(()));
    let zero = StatelessRnntBeamConfig { beam_size: 0, ..config };
    assert_eq!(check(5, 3, 2, 10, 0, zero, false), Err(StatelessBeamError::ZeroBeam));
    assert_eq!(check(5, 3, 2, 10, 0, config, false), Err(StatelessBeamError::EncoderShape));
    assert_eq!(check(6, 3, 2, 10, 10, config, false), Err(StatelessBeamError::Vocabulary));
    let context = StatelessRnntBeamConfig { initial_context: [-2, 0], ..config };
    assert_eq!(check(6, 3, 2, 10, 0, context, false), Err(StatelessBeamError::InitialContext));
    let context = StatelessRnntBeamConfig { initial_context: [-1, 10], ..config };
    assert_eq!(check(6, 3, 2, 10, 0, context, false), Err(StatelessBeamError::InitialContext));
    let context = StatelessRnntBeamConfig { initial_context: [-1, 9], ..config };
    assert_eq!(check(6, 3, 2, 10, 0, context, false), Ok(()));
    let extra = StatelessRnntBeamConfig { additional_non_emitting_id: Some(0), ..config };
    assert_eq!(check(6, 3, 2, 10, 0, extra, false), Err(StatelessBeamError::AdditionalNonEmitting));
    let sherpa = StatelessRnntBeamConfig {
        pruning: StatelessRnntPruning::Sherpa,
        search_length_normalization: StatelessRnntLengthNormalization::Half,
        ..config
    };
    assert_eq!(check(6, 3, 2, 10, 0, sherpa, false), Err(StatelessBeamError::SherpaNormalization));
    let sherpa = StatelessRnntBeamConfig { pruning: StatelessRnntPruning::Sherpa, ..config };
    assert_eq!(check(6, 3, 2, 10, 0, sherpa, false), Ok(()));
    assert_eq!(check(6, 3, 2, 10, 0, sherpa, true), Err(StatelessBeamError::SherpaHotwords));
    assert_eq!(StatelessBeamError::ZeroBeam.message(), "RNNT beam size must be positive");
}
