use parapper_models::backend::static_tokenizer::{
    check_unigram_tokenizer, unigram_normalized_chars, StaticTokenizerError, UnigramVocabulary,
};
use parapper_models::language_id::parse_language_labels;

fn tokenizer(model: &str) -> Vec<u8> {
    format!(r#"{{"version":"1.0","model":{model}}}"#).into_bytes()
}

#[test]
fn unigram_tokenizer_keeps_pieces_after_the_unknown_token() {
    let bytes = tokenizer(
        r#"{"type":"Unigram","unk_id":1,"byte_fallback":false,"vocab":[["<pad>",0.0],["<unk>",0.0],["今日",-1.5],["",-2.0],["は",-3]]}"#,
    );
    assert_eq!(
        check_unigram_tokenizer(&bytes),
        Ok(UnigramVocabulary {
            unknown_id: 1,
            pieces: vec![(2, "今日".to_string()), (4, "は".to_string())],
        })
    );
}

#[test]
fn unigram_tokenizer_refusals_follow_the_artifact_contract() {
    let check = |model: &str| check_unigram_tokenizer(&tokenizer(model));
    assert_eq!(check_unigram_tokenizer(b"not json"), Err(StaticTokenizerError::NotJson));
    assert_eq!(check_unigram_tokenizer(br#"{"vocab":[]}"#), Err(StaticTokenizerError::NoModel));
    assert_eq!(check(r#"{"type":"BPE","unk_id":0,"vocab":[]}"#), Err(StaticTokenizerError::NotUnigram));
    assert_eq!(
        check(r#"{"type":"Unigram","byte_fallback":true,"unk_id":0,"vocab":[]}"#),
        Err(StaticTokenizerError::NotUnigram)
    );
    assert_eq!(check(r#"{"type":"Unigram","unk_id":-1,"vocab":[]}"#), Err(StaticTokenizerError::InvalidUnknownId));
    assert_eq!(check(r#"{"type":"Unigram","unk_id":0}"#), Err(StaticTokenizerError::NoVocabulary));
    assert_eq!(
        check(r#"{"type":"Unigram","unk_id":0,"vocab":[["a",1.0,2.0]]}"#),
        Err(StaticTokenizerError::InvalidEntry)
    );
    assert_eq!(
        check(r#"{"type":"Unigram","unk_id":0,"vocab":[["a",1.0],[3,1.0]]}"#),
        Err(StaticTokenizerError::PieceNotText)
    );
    assert_eq!(
        check(r#"{"type":"Unigram","unk_id":0,"vocab":[["a","high"],"b"]}"#),
        Err(StaticTokenizerError::ScoreNotNumeric)
    );
    assert_eq!(
        StaticTokenizerError::NotUnigram.message(),
        "static tokenizer must be a non-byte-fallback Unigram model"
    );
    assert_eq!(check(r#"{"type":"Unigram","unk_id":0,"vocab":[]}"#).map(|v| v.pieces.len()), Ok(0));
}

#[test]
fn unigram_text_is_composed_lowercased_and_word_marked() {
    let normalized: String = unigram_normalized_chars("ＡＢ c\u{3000}Ｄ").into_iter().collect();
    assert_eq!(normalized, "▁ab▁c▁d");
    let composed: String = unigram_normalized_chars("ｶﾞ").into_iter().collect();
    assert_eq!(composed, "▁ガ");
    let empty: String = unigram_normalized_chars("").into_iter().collect();
    assert_eq!(empty, "▁");
}

#[test]
fn language_labels_are_a_json_array_of_strings() {
    assert_eq!(
        parse_language_labels(r#"["ja", "en", "fr"]"#),
        Some(vec!["ja".to_string(), "en".to_string(), "fr".to_string()])
    );
    assert_eq!(parse_language_labels(r#"["ja", 1]"#), None);
    assert_eq!(parse_language_labels("ja"), None);
}
