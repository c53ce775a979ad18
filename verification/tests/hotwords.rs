use parapper_models::backend::hotword_entries::HotwordEntryError;
use parapper_models::backend::parakeet::{
    parakeet_piece_candidates, tokenize_parakeet_hotword_entries, tokenize_parakeet_hotword_text,
    visit_parakeet_hotword_segmentations,
};
use parapper_models::backend::reazon::{
    to_katakana, tokenize_reazon_hotword_entries, tokenize_reazon_hotword_text, HotwordTextError,
};
use parapper_models::decoder::hotword::{
    find_hotword_matches, normalize_reading, validate_hotword_paths, HotwordEntry,
    HotwordGraphError, HotwordPathKind, HotwordTokenPath,
};

fn vocabulary(tokens: &[&str]) -> Vec<String> {
    tokens.iter().map(|token| token.to_string()).collect()
}

fn path(tokens: Vec<usize>, entry_id: usize, surface: &str, kind: HotwordPathKind) -> HotwordTokenPath {
    HotwordTokenPath {
        tokens,
        entry_id,
        surface: surface.to_string(),
        kind,
    }
}

#[test]
fn reading_normalization_accepts_full_and_half_width_katakana() {
    assert_eq!(normalize_reading("ﾊﾟﾗｸﾞﾗﾌ"), "ぱらぐらふ");
    assert_eq!(normalize_reading("パラグラフ"), "ぱらぐらふ");
    assert_eq!(normalize_reading("ぱらぐらふ"), "ぱらぐらふ");
}

#[test]
fn katakana_rewrite_moves_only_hiragana_letters() {
    assert_eq!(to_katakana("さいとう abc"), "サイトウ abc");
    assert_eq!(to_katakana("ゔ"), "ヴ");
    assert_eq!(to_katakana("ー漢"), "ー漢");
}

#[test]
fn hotword_piece_segmentation_is_bounded_and_deterministic() {
    let tokens = vocabulary(&["あ", "ああ", "あああ", "ああああ"]);

    let first =
        tokenize_parakeet_hotword_text("ああああああああ", &tokens, HotwordPathKind::Surface).unwrap();
    let second =
        tokenize_parakeet_hotword_text("ああああああああ", &tokens, HotwordPathKind::Surface).unwrap();

    assert_eq!(first, second);
    assert_eq!(first.len(), 8);
    assert_eq!(first[0], vec![0; 8]);
}

#[test]
fn sentencepiece_boundary_piece_is_admitted_only_at_hotword_start() {
    let tokens = vocabulary(&["あ", "い", "\u{2581}い"]);

    let internal = tokenize_parakeet_hotword_text("あい", &tokens, HotwordPathKind::Surface).unwrap();
    let at_start = tokenize_parakeet_hotword_text("い", &tokens, HotwordPathKind::Surface).unwrap();

    assert!(!internal.contains(&vec![0, 2]));
    assert!(at_start.contains(&vec![2]));
}

#[test]
fn segmentations_follow_the_character_path_then_length_then_ids() {
    let tokens = vocabulary(&["か", "な", "かな", "<unk>", "な か"]);
    let paths = tokenize_parakeet_hotword_text(" か な ", &tokens, HotwordPathKind::Reading).unwrap();
    assert_eq!(paths, vec![vec![0, 1], vec![2]]);

    let no_characters = vocabulary(&["xx", "x"]);
    let paths = tokenize_parakeet_hotword_text("xxx", &no_characters, HotwordPathKind::Surface).unwrap();
    assert_eq!(paths[0], vec![1, 1, 1]);
    assert_eq!(paths, vec![vec![1, 1, 1], vec![0, 1], vec![1, 0]]);
}

#[test]
fn parakeet_tokenization_reports_empty_and_unsegmentable_text() {
    let tokens = vocabulary(&["か"]);
    assert_eq!(
        tokenize_parakeet_hotword_text(" \t", &tokens, HotwordPathKind::Surface),
        Err(HotwordTextError::Empty {
            kind: HotwordPathKind::Surface
        })
    );
    assert_eq!(
        tokenize_parakeet_hotword_text("かき", &tokens, HotwordPathKind::Reading),
        Err(HotwordTextError::Unsegmentable {
            kind: HotwordPathKind::Reading
        })
    );
}

#[test]
fn piece_candidates_are_ordered_longest_first_then_by_token_id() {
    let tokens = vocabulary(&["な", "かな", "か", "\u{2581}か", "<s>", "か な"]);
    let text: Vec<char> = "かな".chars().collect();
    let candidates = parakeet_piece_candidates(&text, &tokens);
    assert_eq!(candidates.len(), 2);
    assert_eq!(candidates[0], vec![(2, 1, 2), (1, 2, 1), (1, 3, 1)]);
    assert_eq!(candidates[1], vec![(2, 0, 1)]);

    let mut current = Vec::new();
    let mut completed = Vec::new();
    let mut expansions = 0;
    visit_parakeet_hotword_segmentations(0, 2, &candidates, &mut current, &mut completed, &mut expansions);
    assert_eq!(completed, vec![vec![1], vec![2, 0], vec![3, 0]]);
    assert_eq!(expansions, 5);
    assert!(current.is_empty());
}

#[test]
fn segmentation_stops_when_the_expansion_budget_is_spent() {
    let tokens = vocabulary(&["a"]);
    let text: Vec<char> = "aa".chars().collect();
    let candidates = parakeet_piece_candidates(&text, &tokens);
    let mut current = Vec::new();
    let mut completed = Vec::new();
    let mut expansions = 4_095;
    visit_parakeet_hotword_segmentations(0, 2, &candidates, &mut current, &mut completed, &mut expansions);
    assert!(completed.is_empty());
    assert_eq!(expansions, 4_096);
}

#[test]
fn reazon_tokenization_maps_each_character_to_its_token() {
    let tokens = vocabulary(&["<blk>", "さ", "い", "さ"]);
    assert_eq!(
        tokenize_reazon_hotword_text("さ い", &tokens, HotwordPathKind::Reading),
        Ok(vec![3, 2])
    );
    assert_eq!(
        tokenize_reazon_hotword_text("さき", &tokens, HotwordPathKind::Surface),
        Err(HotwordTextError::OutOfVocabulary {
            kind: HotwordPathKind::Surface,
            character: 'き'
        })
    );
    assert_eq!(
        tokenize_reazon_hotword_text("   ", &tokens, HotwordPathKind::Surface),
        Err(HotwordTextError::Empty {
            kind: HotwordPathKind::Surface
        })
    );
}

#[test]
fn hotword_tokenization_preserves_surface_and_normalized_reading_paths() {
    let tokens = vocabulary(&["斎", "藤", "さ", "い", "と", "う", "サ", "イ", "ト", "ウ"]);
    let paths = tokenize_parakeet_hotword_entries(
        &[HotwordEntry {
            surface: "斎藤".into(),
            readings: vec!["サイﾄウ".into()],
        }],
        &tokens,
    )
    .unwrap();

    assert_eq!(paths.len(), 3);
    assert_eq!(paths[0].tokens, vec![0, 1]);
    assert_eq!(paths[1].tokens, vec![2, 3, 4, 5]);
    assert_eq!(paths[2].tokens, vec![6, 7, 8, 9]);
}

#[test]
fn hotword_tokenization_keeps_character_and_multi_character_piece_paths() {
    let mut tokens = (0..424).map(|id| format!("unused-{id}")).collect::<Vec<_>>();
    tokens[10] = "か".into();
    tokens[11] = "な".into();
    tokens[174] = "かな".into();
    tokens[423] = "ざ".into();
    tokens[52] = "わ".into();
    tokens[20] = "カ".into();
    tokens[21] = "ナ".into();
    tokens[22] = "ザ".into();
    tokens[23] = "ワ".into();
    tokens[175] = "カナ".into();
    let paths = tokenize_parakeet_hotword_entries(
        &[HotwordEntry {
            surface: "かなざわ".into(),
            readings: vec!["かなざわ".into()],
        }],
        &tokens,
    )
    .unwrap();

    let surface_paths = paths
        .iter()
        .filter(|path| path.kind == HotwordPathKind::Surface)
        .map(|path| path.tokens.as_slice())
        .collect::<Vec<_>>();
    let reading_paths = paths
        .iter()
        .filter(|path| path.kind == HotwordPathKind::Reading)
        .map(|path| path.tokens.as_slice())
        .collect::<Vec<_>>();
    assert!(surface_paths.contains(&[10, 11, 423, 52].as_slice()));
    assert!(surface_paths.contains(&[174, 423, 52].as_slice()));
    assert!(reading_paths.contains(&[174, 423, 52].as_slice()));
    assert!(reading_paths.contains(&[175, 22, 23].as_slice()));
}

#[test]
fn oov_display_surface_is_allowed_only_when_a_spoken_reading_is_tokenizable() {
    let tokens = vocabulary(&["<blk>", "す", "ろ", "べ", "に", "あ", "ス", "ロ", "ベ", "ニ", "ア"]);
    let entry = HotwordEntry {
        surface: "Tony Hawk's".to_owned(),
        readings: vec!["すろべにあ".to_owned()],
    };

    let paths = tokenize_reazon_hotword_entries(std::slice::from_ref(&entry), &tokens).unwrap();
    assert_eq!(paths.len(), 2);
    assert!(paths.iter().all(|path| path.kind == HotwordPathKind::Reading));
    assert!(tokenize_reazon_hotword_entries(
        &[HotwordEntry {
            readings: Vec::new(),
            ..entry
        }],
        &tokens,
    )
    .is_err());
}

#[test]
fn entry_errors_name_blank_surfaces_readings_and_unspellable_text() {
    let tokens = vocabulary(&["<blk>", "さ"]);
    let blank_surface = HotwordEntry {
        surface: "  ".into(),
        readings: vec!["さ".into()],
    };
    assert_eq!(
        tokenize_reazon_hotword_entries(&[blank_surface], &tokens),
        Err(HotwordEntryError::EmptySurface)
    );
    let blank_reading = HotwordEntry {
        surface: "さ".into(),
        readings: vec![" ".into()],
    };
    assert_eq!(
        tokenize_reazon_hotword_entries(&[blank_reading], &tokens),
        Err(HotwordEntryError::EmptyReading)
    );
    let unknown_reading = HotwordEntry {
        surface: "さ".into(),
        readings: vec!["き".into()],
    };
    assert_eq!(
        tokenize_reazon_hotword_entries(&[unknown_reading], &tokens),
        Err(HotwordEntryError::Text(HotwordTextError::OutOfVocabulary {
            kind: HotwordPathKind::Reading,
            character: 'き'
        }))
    );
    let katakana_missing = HotwordEntry {
        surface: "さ".into(),
        readings: vec!["さ".into()],
    };
    assert_eq!(
        tokenize_reazon_hotword_entries(&[katakana_missing], &tokens),
        Err(HotwordEntryError::Text(HotwordTextError::OutOfVocabulary {
            kind: HotwordPathKind::Reading,
            character: 'サ'
        }))
    );
}

#[test]
fn entry_paths_carry_entry_ids_in_entry_order() {
    let tokens = vocabulary(&["<blk>", "a", "b"]);
    let entries = [
        HotwordEntry::new("ab".to_string()).unwrap(),
        HotwordEntry::new("b".to_string()).unwrap(),
    ];
    let paths = tokenize_reazon_hotword_entries(&entries, &tokens).unwrap();
    assert_eq!(
        paths,
        vec![
            path(vec![1, 2], 0, "ab", HotwordPathKind::Surface),
            path(vec![2], 1, "b", HotwordPathKind::Surface),
        ]
    );
}

#[test]
fn entry_constructor_rejects_empty_surface() {
    assert!(HotwordEntry::new(String::new()).is_err());
    assert_eq!(HotwordEntry::new(" \n".to_string()), Err(HotwordEntryError::EmptySurface));
    let entry = HotwordEntry::new("斎藤".to_string()).unwrap();
    assert_eq!(entry.surface, "斎藤");
    assert!(entry.readings.is_empty());
}

#[test]
fn reading_match_returns_surface_and_token_span() {
    let paths = vec![path(vec![1, 2], 7, "斎藤", HotwordPathKind::Reading)];
    assert_eq!(validate_hotword_paths(&paths, &[true]), Ok(()));
    let matches = find_hotword_matches(&paths, &[9, 1, 2, 8]);
    assert_eq!(matches.len(), 1);
    assert_eq!(matches[0].start_token, 1);
    assert_eq!(matches[0].end_token, 3);
    assert_eq!(matches[0].entry_id, 7);
    assert_eq!(matches[0].surface, "斎藤");
}

#[test]
fn matches_prefer_longer_paths_then_readings_and_skip_unnamed_paths() {
    let paths = vec![
        path(vec![1], 0, "一", HotwordPathKind::Surface),
        path(vec![1, 2], 1, "一二", HotwordPathKind::Surface),
        path(vec![1, 2], 2, "壱弐", HotwordPathKind::Reading),
        path(vec![3], 3, "", HotwordPathKind::Surface),
        path(vec![2, 3], 4, "二三", HotwordPathKind::Surface),
    ];
    let matches = find_hotword_matches(&paths, &[1, 2, 3, 1, 3]);
    let spans = matches
        .iter()
        .map(|m| (m.start_token, m.end_token, m.entry_id))
        .collect::<Vec<_>>();
    assert_eq!(spans, vec![(0, 2, 2), (3, 4, 0)]);
    assert!(find_hotword_matches(&paths, &[]).is_empty());
}

#[test]
fn duplicate_reading_for_different_surfaces_is_rejected() {
    let paths = vec![
        path(vec![1, 2], 0, "橋", HotwordPathKind::Reading),
        path(vec![1, 2], 1, "箸", HotwordPathKind::Reading),
    ];
    assert!(validate_hotword_paths(&paths, &[true, true]).is_err());
}

#[test]
fn duplicate_surface_and_reading_path_for_different_surfaces_is_rejected() {
    let paths = vec![
        path(vec![1, 2], 0, "さいとう", HotwordPathKind::Surface),
        path(vec![1, 2], 1, "斎藤", HotwordPathKind::Reading),
    ];
    assert_eq!(
        validate_hotword_paths(&paths, &[true, true]),
        Err(HotwordGraphError::AmbiguousSurface { previous: 0, path: 1 })
    );
}

#[test]
fn terminal_prefix_collision_is_rejected() {
    let paths = vec![
        path(vec![1, 2], 0, "東京", HotwordPathKind::Surface),
        path(vec![1, 2, 3], 1, "東京都", HotwordPathKind::Surface),
    ];
    assert_eq!(
        validate_hotword_paths(&paths, &[true, true]),
        Err(HotwordGraphError::TerminalPrefix { short: 0, long: 1 })
    );
}

#[test]
fn graph_checks_run_in_build_order() {
    let same = vec![
        path(vec![1, 2], 0, "橋", HotwordPathKind::Reading),
        path(vec![1, 2], 0, "橋", HotwordPathKind::Reading),
    ];
    assert_eq!(validate_hotword_paths(&same, &[true, true]), Ok(()));
    assert_eq!(
        validate_hotword_paths(&[path(vec![], 0, "x", HotwordPathKind::Surface)], &[true]),
        Err(HotwordGraphError::EmptyPath)
    );
    assert_eq!(
        validate_hotword_paths(&[path(vec![1], 0, " ", HotwordPathKind::Surface)], &[true]),
        Err(HotwordGraphError::BlankSurface { path: 0 })
    );
    assert_eq!(
        validate_hotword_paths(&[path(vec![1], 0, "x", HotwordPathKind::Surface)], &[false]),
        Err(HotwordGraphError::InadmissiblePhraseMultiplier { path: 0 })
    );
    let unnamed_prefix = vec![
        path(vec![1], 0, "", HotwordPathKind::Surface),
        path(vec![1, 2], 1, "x", HotwordPathKind::Surface),
    ];
    assert_eq!(validate_hotword_paths(&unnamed_prefix, &[true, true]), Ok(()));
}
