use parapper_models::backend::parakeet::{first_entry_surface_conflict, gate_paths_by_entry};
use parapper_models::decoder::ctc::{
    collapse_ctc_labels, ctc_token_texts, keyword_predecessor_frames, validate_ctc_keyword_request,
    validate_ctc_logits, CtcKeywordError, CtcLogitsError,
};
use parapper_models::decoder::hotword::{HotwordPathKind, HotwordTokenPath};
use parapper_models::decoder::tdt::{
    greedy_tdt_start, greedy_tdt_step, validate_tdt_encoder, GreedyTdtCursor, GreedyTdtEmission,
    TdtEncoderError, NVIDIA_GREEDY_MAX_SYMBOLS_PER_STEP,
};

#[test]
fn ctc_logits_shape_is_checked_in_order() {
    assert_eq!(validate_ctc_logits(6, 2, 3, 2), Ok(()));
    assert_eq!(validate_ctc_logits(0, 0, 0, 0), Err(CtcLogitsError::EmptyVocabulary));
    assert_eq!(validate_ctc_logits(6, 2, 3, 3), Err(CtcLogitsError::BlankOutOfRange));
    assert_eq!(validate_ctc_logits(6, usize::MAX, 3, 0), Err(CtcLogitsError::ShapeOverflow));
    assert_eq!(validate_ctc_logits(5, 2, 3, 0), Err(CtcLogitsError::LengthMismatch));
    assert_eq!(
        CtcLogitsError::LengthMismatch.message(),
        "CTC logit length does not match the frames and vocabulary"
    );
}

#[test]
fn ctc_labels_collapse_runs_and_drop_blanks() {
    let collapsed = collapse_ctc_labels(&[0, 1, 1, 0, 1, 2, 2, 0], 0);
    assert_eq!(collapsed.token_ids, vec![1, 1, 2]);
    assert_eq!(collapsed.frame_indices, vec![1, 4, 5]);
    let none = collapse_ctc_labels(&[3, 3, 3], 3);
    assert!(none.token_ids.is_empty());
    let first = collapse_ctc_labels(&[5], 0);
    assert_eq!(first.token_ids, vec![5]);
    assert_eq!(first.frame_indices, vec![0]);
}

#[test]
fn ctc_token_texts_read_word_markers_as_spaces() {
    let tokens = vec!["\u{2581}the".to_string(), "cat".to_string(), "<b>".to_string()];
    assert_eq!(
        ctc_token_texts(&[0, 1], &tokens),
        Ok(vec![" the".to_string(), "cat".to_string()])
    );
    assert_eq!(ctc_token_texts(&[1, 7, 9], &tokens), Err(7));
}

#[test]
fn ctc_keyword_requests_are_validated_in_order() {
    assert_eq!(validate_ctc_keyword_request(6, 2, 3, 0, &[1, 2], 4, true), Ok(()));
    assert_eq!(
        validate_ctc_keyword_request(6, 0, 3, 0, &[1], 4, true),
        Err(CtcKeywordError::PosteriorShape)
    );
    assert_eq!(
        validate_ctc_keyword_request(5, 2, 3, 0, &[1], 4, true),
        Err(CtcKeywordError::PosteriorShape)
    );
    assert_eq!(
        validate_ctc_keyword_request(6, 2, 3, 0, &[], 4, true),
        Err(CtcKeywordError::KeywordTokens)
    );
    assert_eq!(
        validate_ctc_keyword_request(6, 2, 3, 0, &[1, 0], 4, true),
        Err(CtcKeywordError::KeywordTokens)
    );
    assert_eq!(
        validate_ctc_keyword_request(6, 2, 3, 0, &[1, 3], 4, true),
        Err(CtcKeywordError::KeywordTokens)
    );
    assert_eq!(
        validate_ctc_keyword_request(6, 2, 3, 0, &[1], 0, true),
        Err(CtcKeywordError::ZeroGap)
    );
    assert_eq!(
        validate_ctc_keyword_request(6, 2, 3, 0, &[1], 4, false),
        Err(CtcKeywordError::NonFinite)
    );
}

#[test]
fn keyword_predecessors_respect_gap_and_repeats() {
    assert_eq!(keyword_predecessor_frames(0, false, 3), None);
    assert_eq!(keyword_predecessor_frames(1, false, 3), Some((0, 0)));
    assert_eq!(keyword_predecessor_frames(1, true, 3), None);
    assert_eq!(keyword_predecessor_frames(5, false, 3), Some((2, 4)));
    assert_eq!(keyword_predecessor_frames(5, true, 3), Some((2, 3)));
    assert_eq!(keyword_predecessor_frames(5, true, 1), None);
}

#[test]
fn tdt_encoder_output_is_checked() {
    assert_eq!(validate_tdt_encoder(8, 2, 4, true), Ok(()));
    assert_eq!(validate_tdt_encoder(7, 2, 4, true), Err(TdtEncoderError::Shape));
    assert_eq!(validate_tdt_encoder(8, 2, 4, false), Err(TdtEncoderError::NonFinite));
}

#[test]
fn greedy_tdt_steps_emit_skip_and_cap_symbols() {
    let start = greedy_tdt_start();
    assert_eq!(start, GreedyTdtCursor { time: 0, symbols_added: 0 });
    let emitted = greedy_tdt_step(start, 4, 2, 9);
    assert_eq!(
        emitted.emission,
        Some(GreedyTdtEmission { token_id: 4, timestamp: 0, duration: 2 })
    );
    assert_eq!(emitted.cursor, GreedyTdtCursor { time: 2, symbols_added: 0 });
    let stay = greedy_tdt_step(emitted.cursor, 5, 0, 9);
    assert_eq!(stay.cursor, GreedyTdtCursor { time: 2, symbols_added: 1 });
    let blank = greedy_tdt_step(stay.cursor, 9, 1, 9);
    assert_eq!(blank.emission, None);
    assert_eq!(blank.cursor, GreedyTdtCursor { time: 3, symbols_added: 0 });
    let capped = greedy_tdt_step(
        GreedyTdtCursor { time: 3, symbols_added: NVIDIA_GREEDY_MAX_SYMBOLS_PER_STEP - 1 },
        5,
        0,
        9,
    );
    assert_eq!(capped.cursor, GreedyTdtCursor { time: 4, symbols_added: 0 });
}

fn path(entry_id: usize, surface: &str) -> HotwordTokenPath {
    HotwordTokenPath {
        tokens: vec![entry_id + 1],
        entry_id,
        surface: surface.to_string(),
        kind: HotwordPathKind::Surface,
    }
}

#[test]
fn hotword_paths_conflict_when_an_entry_changes_surface() {
    let paths = vec![path(0, "東京"), path(1, "大阪"), path(0, "東京"), path(1, "京都")];
    assert_eq!(first_entry_surface_conflict(&paths), Some(3));
    assert_eq!(first_entry_surface_conflict(&paths[..3]), None);
}

#[test]
fn hotword_entries_are_kept_with_all_paths_when_one_path_is_admitted() {
    assert_eq!(
        gate_paths_by_entry(&[0, 1, 0, 2, 1], &[false, false, true, false, false]),
        vec![0, 2]
    );
    assert!(gate_paths_by_entry(&[0, 1], &[false, false]).is_empty());
}
