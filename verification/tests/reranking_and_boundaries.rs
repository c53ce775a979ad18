use parapper_models::backend::reazon_rerank::{
    check_embedding_fits, embedding_tensor_layout, evidence_mask, parse_embedding_tensor,
    safetensors_header_end,
    source_seed, validate_one_splice_request, EmbeddingTensorError, EmbeddingTensorHeader,
    EmbeddingTensorLayout, EvidenceKind, OneSpliceRequestError,
};
use parapper_models::td::{
    first_token_reaching, sentence_punctuation_char_ends, sort_and_dedup_by_char_end,
    GrammarBoundaryClass, TurnBoundaryCandidate,
};
use parapper_models::AsrLanguage;

fn header(dtype: &str, shape: Vec<Option<u64>>, offsets: Vec<Option<u64>>) -> Option<EmbeddingTensorHeader> {
    Some(EmbeddingTensorHeader {
        dtype: Some(dtype.to_string()),
        shape: Some(shape),
        data_offsets: Some(offsets),
    })
}

#[test]
fn safetensors_header_length_is_little_endian_and_bounded_by_the_file() {
    let mut bytes = vec![5, 0, 0, 0, 0, 0, 0, 0];
    bytes.extend_from_slice(b"{}   ");
    assert_eq!(safetensors_header_end(&bytes), Ok(13));
    assert_eq!(safetensors_header_end(&bytes[..7]), Err(EmbeddingTensorError::HeaderInvalid));
    assert_eq!(safetensors_header_end(&bytes[..10]), Err(EmbeddingTensorError::HeaderTruncated));
    let two_hundred_fifty_six = [0, 1, 0, 0, 0, 0, 0, 0];
    assert_eq!(
        safetensors_header_end(&two_hundred_fifty_six),
        Err(EmbeddingTensorError::HeaderTruncated)
    );
    assert_eq!(safetensors_header_end(&[0xff; 8]), Err(EmbeddingTensorError::HeaderTooLarge));
}

#[test]
fn embedding_tensor_layout_checks_dtype_shape_and_byte_count() {
    assert_eq!(
        embedding_tensor_layout(13, &header("F32", vec![Some(3), Some(2)], vec![Some(0), Some(24)])),
        Ok(EmbeddingTensorLayout { rows: 3, dimensions: 2, data_offset: 13, data_length: 24 })
    );
    assert_eq!(
        embedding_tensor_layout(13, &header("F32", vec![Some(3), Some(2)], vec![Some(8), Some(32)])),
        Ok(EmbeddingTensorLayout { rows: 3, dimensions: 2, data_offset: 21, data_length: 24 })
    );
    assert_eq!(embedding_tensor_layout(13, &None), Err(EmbeddingTensorError::MissingTensor));
    assert_eq!(
        embedding_tensor_layout(13, &header("F16", vec![Some(3), Some(2)], vec![Some(0), Some(24)])),
        Err(EmbeddingTensorError::NotF32)
    );
    assert_eq!(
        embedding_tensor_layout(13, &header("F32", vec![Some(3)], vec![Some(0), Some(24)])),
        Err(EmbeddingTensorError::NotMatrix)
    );
    assert_eq!(
        embedding_tensor_layout(13, &header("F32", vec![None, Some(2)], vec![Some(0), Some(24)])),
        Err(EmbeddingTensorError::InvalidRowCount)
    );
    assert_eq!(
        embedding_tensor_layout(13, &header("F32", vec![Some(3), None], vec![Some(0), Some(24)])),
        Err(EmbeddingTensorError::InvalidDimension)
    );
    assert_eq!(
        embedding_tensor_layout(13, &header("F32", vec![Some(3), Some(2)], vec![Some(0)])),
        Err(EmbeddingTensorError::InvalidOffsets)
    );
    assert_eq!(
        embedding_tensor_layout(13, &header("F32", vec![Some(3), Some(2)], vec![None, Some(24)])),
        Err(EmbeddingTensorError::InvalidDataStart)
    );
    assert_eq!(
        embedding_tensor_layout(13, &header("F32", vec![Some(3), Some(2)], vec![Some(0), None])),
        Err(EmbeddingTensorError::InvalidDataEnd)
    );
    assert_eq!(
        embedding_tensor_layout(13, &header("F32", vec![Some(3), Some(2)], vec![Some(0), Some(20)])),
        Err(EmbeddingTensorError::ByteCountMismatch)
    );
    assert_eq!(
        embedding_tensor_layout(13, &header("F32", vec![Some(3), Some(2)], vec![Some(30), Some(6)])),
        Err(EmbeddingTensorError::ByteCountMismatch)
    );
    assert_eq!(
        embedding_tensor_layout(13, &header("F32", vec![Some(u64::MAX), Some(2)], vec![Some(0), Some(8)])),
        Err(EmbeddingTensorError::MatrixTooLarge)
    );
    assert_eq!(
        embedding_tensor_layout(usize::MAX, &header("F32", vec![Some(1), Some(1)], vec![Some(1), Some(5)])),
        Err(EmbeddingTensorError::DataOffsetTooLarge)
    );
}

#[test]
fn embedding_must_cover_the_unknown_token_and_stay_inside_the_file() {
    let layout = EmbeddingTensorLayout { rows: 3, dimensions: 2, data_offset: 13, data_length: 24 };
    assert_eq!(check_embedding_fits(layout, 2, 37), Ok(()));
    assert_eq!(check_embedding_fits(layout, 3, 37), Err(EmbeddingTensorError::VocabularyTooSmall));
    assert_eq!(check_embedding_fits(layout, 0, 36), Err(EmbeddingTensorError::TensorBeyondFile));
    assert_eq!(
        EmbeddingTensorError::TensorBeyondFile.message(),
        "static embedding tensor extends beyond model.safetensors"
    );
}

#[test]
fn evidence_masks_name_the_seeds_that_visit_leave_and_end_in_a_state() {
    let seeds = vec![vec![1, 2, 3, 4], vec![5, 2, 3, 6]];
    assert_eq!(evidence_mask(&seeds, (0, 0, 0), EvidenceKind::Visitor), 0b11);
    assert_eq!(evidence_mask(&seeds, (1, 0, 1), EvidenceKind::Visitor), 0b01);
    assert_eq!(evidence_mask(&seeds, (3, 2, 3), EvidenceKind::Visitor), 0b11);
    assert_eq!(evidence_mask(&seeds, (0, 0, 0), EvidenceKind::Edge { token: 5 }), 0b10);
    assert_eq!(evidence_mask(&seeds, (3, 2, 3), EvidenceKind::Edge { token: 4 }), 0b01);
    assert_eq!(evidence_mask(&seeds, (3, 2, 3), EvidenceKind::Edge { token: 6 }), 0b10);
    assert_eq!(evidence_mask(&seeds, (4, 3, 4), EvidenceKind::Terminal), 0b01);
    assert_eq!(evidence_mask(&seeds, (3, 2, 3), EvidenceKind::Terminal), 0);
    assert_eq!(evidence_mask(&seeds, (9, 9, 9), EvidenceKind::Visitor), 0);
}

#[test]
fn one_splice_requests_need_seeds_width_and_at_most_sixty_four_seeds() {
    assert_eq!(validate_one_splice_request(0, 2), Err(OneSpliceRequestError::NoSeeds));
    assert_eq!(validate_one_splice_request(1, 0), Err(OneSpliceRequestError::ZeroRetainedWidth));
    assert_eq!(validate_one_splice_request(65, 2), Err(OneSpliceRequestError::TooManySeeds));
    assert_eq!(validate_one_splice_request(64, 2), Ok(()));
    assert_eq!(
        OneSpliceRequestError::TooManySeeds.message(),
        "ReazonSpeech one-splice evidence supports at most 64 seeds"
    );
    let seeds = vec![vec![1, 2], vec![3], vec![1, 2]];
    assert_eq!(source_seed(&seeds, &vec![1, 2]), Some(0));
    assert_eq!(source_seed(&seeds, &vec![3]), Some(1));
    assert_eq!(source_seed(&seeds, &vec![1, 3]), None);
}

#[test]
fn punctuation_boundaries_follow_the_script_of_the_language() {
    assert_eq!(sentence_punctuation_char_ends(AsrLanguage::Japanese, "今日は。明日？"), vec![4, 7]);
    assert_eq!(sentence_punctuation_char_ends(AsrLanguage::Japanese, "Hi. Yes!"), Vec::<usize>::new());
    assert_eq!(sentence_punctuation_char_ends(AsrLanguage::English, "Hi. Yes!"), vec![3, 8]);
    assert_eq!(sentence_punctuation_char_ends(AsrLanguage::Multilingual, "a?b!"), vec![2, 4]);
    assert!(sentence_punctuation_char_ends(AsrLanguage::English, "").is_empty());
}

#[test]
fn boundary_char_end_maps_to_the_first_token_reaching_it() {
    let ranges = vec![None, Some(0..2), Some(2..5)];
    assert_eq!(first_token_reaching(&ranges, 3), Some(2));
    assert_eq!(first_token_reaching(&ranges, 2), Some(1));
    assert_eq!(first_token_reaching(&ranges, 6), None);
    assert_eq!(first_token_reaching(&[], 0), None);
}

fn candidate(char_end: usize, sample_end: usize, class: GrammarBoundaryClass) -> TurnBoundaryCandidate {
    TurnBoundaryCandidate {
        char_end,
        sample_end,
        prefix_audio_end: sample_end,
        suffix_audio_start: sample_end,
        class,
    }
}

#[test]
fn merged_boundaries_are_ordered_and_keep_the_first_per_char_end() {
    let merged = sort_and_dedup_by_char_end(vec![
        candidate(7, 70, GrammarBoundaryClass::StrongEnd),
        candidate(3, 30, GrammarBoundaryClass::StrongEnd),
        candidate(7, 71, GrammarBoundaryClass::PredicateEnd),
        candidate(5, 50, GrammarBoundaryClass::NormalEnd),
        candidate(3, 31, GrammarBoundaryClass::ClauseWeak),
    ]);
    assert_eq!(
        merged,
        vec![
            candidate(3, 30, GrammarBoundaryClass::StrongEnd),
            candidate(5, 50, GrammarBoundaryClass::NormalEnd),
            candidate(7, 70, GrammarBoundaryClass::StrongEnd),
        ]
    );
    assert!(sort_and_dedup_by_char_end(Vec::new()).is_empty());
}

use parapper_models::decoder::context_graph::HotwordContextGraph;
use parapper_models::decoder::hotword::{HotwordPathKind, HotwordTokenPath};
use parapper_models::decoder::rnnt::{
    compact_score_requests, validate_fixed_sequence_inputs, FixedSequenceInputError, TokenPrefixArena,
};

#[test]
fn prefix_arena_reports_each_prefix_parent_and_last_token() {
    let mut arena = TokenPrefixArena::new([0, 0]);
    let a = arena.intern_child(0, 5);
    let b = arena.intern_child(a, 7);
    assert_eq!(arena.last_step(0), None);
    assert_eq!(arena.last_step(a), Some((0, 5)));
    assert_eq!(arena.last_step(b), Some((a, 7)));
}

#[test]
fn compact_requests_ask_each_row_for_blank_last_tokens_and_continuations() {
    let mut arena = TokenPrefixArena::new([0, 0]);
    let a = arena.intern_child(0, 5);
    let b = arena.intern_child(a, 7);
    // Hypotheses `a` and `b`; `a`'s parent (the root) is active at context row 0,
    // `b`'s parent `a` at row 1.
    let beam = vec![(a, 0), (b, 0)];
    let active = vec![(0, 0), (a, 1)];
    let context_rows = vec![0, 1];
    let requested = compact_score_requests(&beam, &arena, &context_rows, 2, &active, 9, None, None);
    assert_eq!(requested, vec![vec![5, 9], vec![7, 9]]);
    let with_unknown = compact_score_requests(&beam, &arena, &context_rows, 3, &active, 9, Some(2), None);
    assert_eq!(with_unknown, vec![vec![2, 5, 9], vec![2, 7, 9], vec![2, 9]]);

    let path = HotwordTokenPath {
        tokens: vec![3, 4],
        entry_id: 0,
        surface: String::new(),
        kind: HotwordPathKind::Surface,
    };
    let graph = HotwordContextGraph::build(vec![path], &[true], &[true]).unwrap();
    let after_three = graph.forward(graph.root(), 3).next_state;
    let beam = vec![(a, graph.root()), (b, after_three)];
    let requested =
        compact_score_requests(&beam, &arena, &context_rows, 2, &active, 9, None, Some(&graph));
    assert_eq!(requested, vec![vec![3, 5, 9], vec![3, 4, 7, 9]]);
}

#[test]
fn fixed_sequences_need_a_rectangular_encoder_and_no_blank() {
    assert_eq!(validate_fixed_sequence_inputs(12, 3, 4, 0, &[vec![1, 2]]), Ok(()));
    assert_eq!(
        validate_fixed_sequence_inputs(12, 3, 0, 0, &[vec![1, 2]]),
        Err(FixedSequenceInputError::EncoderShape)
    );
    assert_eq!(
        validate_fixed_sequence_inputs(11, 3, 4, 0, &[vec![1, 2]]),
        Err(FixedSequenceInputError::EncoderShape)
    );
    assert_eq!(
        validate_fixed_sequence_inputs(12, 3, 4, 2, &[vec![1], vec![3, 2]]),
        Err(FixedSequenceInputError::BlankInTranscript)
    );
    assert_eq!(
        validate_fixed_sequence_inputs(usize::MAX, usize::MAX, 2, 0, &[]),
        Ok(())
    );
}

use parapper_models::frontend::nemo_streaming::{stream_bootstrap, StreamBootstrap};
use parapper_models::AsrSpeechRangeSamples;

#[test]
fn stream_bootstrap_borrows_audio_before_speech_or_pads_with_silence() {
    assert_eq!(
        stream_bootstrap(1000, AsrSpeechRangeSamples { start: 400, end: 600 }, 50, 160),
        StreamBootstrap { copy_start: 280, leading_padding_samples: 0, fade_samples: 50, trailing_padding_samples: 80 }
    );
    assert_eq!(
        stream_bootstrap(1000, AsrSpeechRangeSamples { start: 30, end: 100 }, 50, 160),
        StreamBootstrap { copy_start: 0, leading_padding_samples: 60, fade_samples: 50, trailing_padding_samples: 60 }
    );
    // A range past the delta and a fade longer than the delta are clipped.
    assert_eq!(
        stream_bootstrap(100, AsrSpeechRangeSamples { start: 500, end: 900 }, 400, 64),
        StreamBootstrap { copy_start: 0, leading_padding_samples: 28, fade_samples: 100, trailing_padding_samples: 0 }
    );
}

fn weight_file(header: &str, data_len: usize) -> Vec<u8> {
    let mut bytes = (header.len() as u64).to_le_bytes().to_vec();
    bytes.extend_from_slice(header.as_bytes());
    bytes.extend(std::iter::repeat(0_u8).take(data_len));
    bytes
}

#[test]
fn embedding_weight_files_are_located_from_their_json_header() {
    let json = r#"{"__metadata__":{"format":"pt"},"embedding.weight":{"dtype":"F32","shape":[3,2],"data_offsets":[0,24]}}"#;
    let bytes = weight_file(json, 24);
    assert_eq!(
        parse_embedding_tensor(&bytes),
        Ok(EmbeddingTensorLayout { rows: 3, dimensions: 2, data_offset: 8 + json.len(), data_length: 24 })
    );
    assert_eq!(
        parse_embedding_tensor(&weight_file("{not json", 0)),
        Err(EmbeddingTensorError::HeaderNotJson)
    );
    assert_eq!(
        EmbeddingTensorError::HeaderNotJson.message(),
        "failed to parse static embedding safetensors header"
    );
    assert_eq!(
        parse_embedding_tensor(&weight_file(r#"{"other":{}}"#, 0)),
        Err(EmbeddingTensorError::MissingTensor)
    );
    assert_eq!(
        parse_embedding_tensor(&weight_file(
            r#"{"embedding.weight":{"dtype":"F16","shape":[3,2],"data_offsets":[0,24]}}"#,
            0
        )),
        Err(EmbeddingTensorError::NotF32)
    );
    assert_eq!(
        parse_embedding_tensor(&weight_file(
            r#"{"embedding.weight":{"dtype":"F32","shape":[3,-2],"data_offsets":[0,24]}}"#,
            0
        )),
        Err(EmbeddingTensorError::InvalidDimension)
    );
    assert_eq!(parse_embedding_tensor(&bytes[..7]), Err(EmbeddingTensorError::HeaderInvalid));
}
