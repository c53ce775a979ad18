use parapper_models::decoder::context_graph::HotwordContextGraph;
use parapper_models::decoder::hotword::{HotwordGraphError, HotwordPathKind, HotwordTokenPath};

fn token_path(tokens: Vec<usize>, entry_id: usize, surface: &str) -> HotwordTokenPath {
    HotwordTokenPath {
        tokens,
        entry_id,
        surface: surface.to_string(),
        kind: HotwordPathKind::Surface,
    }
}

/// A graph of bare token words, each offering its continuations.
fn words_graph(words: Vec<Vec<usize>>) -> HotwordContextGraph {
    let count = words.len();
    let paths = words
        .into_iter()
        .enumerate()
        .map(|(entry_id, tokens)| token_path(tokens, entry_id, ""))
        .collect();
    HotwordContextGraph::build(paths, &vec![true; count], &vec![true; count]).unwrap()
}

/// Follows `tokens` from the root and returns the state reached.
fn walk(graph: &HotwordContextGraph, tokens: &[usize]) -> usize {
    let mut state = graph.root();
    for &token in tokens {
        state = graph.forward(state, token).next_state;
    }
    state
}

#[test]
fn rejects_empty_and_invalid_scores() {
    let result = HotwordContextGraph::build(vec![token_path(vec![], 0, "")], &[true], &[true]);
    assert_eq!(result.err(), Some(HotwordGraphError::EmptyPath));
}

#[test]
fn duplicate_words_and_common_prefixes_share_states() {
    let graph = words_graph(vec![vec![1, 2, 3], vec![1, 2, 3], vec![1, 2, 4]]);
    assert_eq!(graph.num_states(), 5);
    let state = graph.forward(graph.root(), 1).next_state;
    assert_eq!(graph.continuation_tokens(state), &[1, 2]);
    let state = graph.forward(state, 2).next_state;
    assert_eq!(graph.continuation_tokens(state), &[1, 3, 4]);
}

#[test]
fn exact_match_scores_one_token_score_per_token() {
    let graph = words_graph(vec![vec![1, 2, 3]]);
    let first = graph.forward(graph.root(), 1);
    let second = graph.forward(first.next_state, 2);
    let last = graph.forward(second.next_state, 3);
    assert_eq!(first.matched, None);
    assert_eq!(second.matched, None);
    assert_eq!(last.matched, Some(last.reached));
    assert_eq!(last.next_state, graph.root());
}

#[test]
fn mismatch_rolls_back_and_can_start_another_hotword() {
    let graph = words_graph(vec![vec![1, 3], vec![2, 3]]);
    let state = graph.forward(graph.root(), 1).next_state;
    let rollback = graph.forward(state, 2);
    assert_eq!(rollback.matched, None);
    assert_eq!(rollback.next_state, graph.child(graph.root(), 2).unwrap());
    assert_eq!(graph.continuation_tokens(rollback.next_state), &[1, 2, 3]);
    let complete = graph.forward(rollback.next_state, 3);
    assert!(complete.matched.is_some());
    assert_eq!(complete.next_state, graph.root());
}

#[test]
fn direct_continuations_exclude_root_and_failure_fallback_branches() {
    let graph = words_graph(vec![vec![1, 3], vec![2, 3]]);
    let state = graph.forward(graph.root(), 1).next_state;
    assert_eq!(graph.direct_continuation_tokens(state), &[3]);
    assert_eq!(graph.continuation_tokens(state), &[1, 2, 3]);
}

#[test]
fn abab_overlap_completes_and_restarts_from_root() {
    let graph = words_graph(vec![vec![1, 2, 1, 2]]);
    let state = walk(&graph, &[1, 2, 1]);
    let last = graph.forward(state, 2);
    assert_eq!(last.matched, Some(last.reached));
    assert_eq!(last.next_state, graph.root());
    let restart = graph.forward(last.next_state, 1);
    assert_ne!(restart.next_state, graph.root());
    assert_eq!(restart.next_state, graph.child(graph.root(), 1).unwrap());
}

#[test]
fn phrase_multiplier_prefixes_and_injection_follow_each_effective_entry_multiplier() {
    // A neutral or suppressing multiplier does not inject; the default x100 does.
    for injects in [false, true] {
        let graph =
            HotwordContextGraph::build(vec![token_path(vec![5, 6], 0, "boosted")], &[true], &[injects])
                .unwrap();
        let state = graph.forward(graph.root(), 5).next_state;
        if injects {
            assert!(graph.continuation_tokens(graph.root()).contains(&5));
            assert!(graph.continuation_tokens(state).contains(&6));
        } else {
            assert!(graph.continuation_tokens(graph.root()).is_empty());
            assert!(graph.continuation_tokens(state).is_empty());
        }
    }
}

#[test]
fn phrase_multiplier_rolls_back_shared_prefix_and_supports_suppression() {
    let graph =
        HotwordContextGraph::build(vec![token_path(vec![1, 2, 3], 0, "抑制語")], &[true], &[false])
            .unwrap();
    assert!(graph.continuation_tokens(graph.root()).is_empty());
    let prefix = graph.forward(graph.root(), 1);
    assert_ne!(prefix.next_state, graph.root());
    let rollback = graph.forward(prefix.next_state, 9);
    assert_eq!(rollback.next_state, graph.root());
    assert_eq!(walk(&graph, &[1, 2, 3]), graph.root());
}

#[test]
fn neutral_phrase_multiplier_does_not_inject_acoustic_candidates() {
    let graph =
        HotwordContextGraph::build(vec![token_path(vec![1, 2], 0, "中立語")], &[true], &[false])
            .unwrap();
    assert!(graph.continuation_tokens(graph.root()).is_empty());
    assert_eq!(walk(&graph, &[1, 2]), graph.root());
}

#[test]
fn shared_prefix_divergence_rolls_back_to_each_phrase_multiplier_exactly() {
    let paths = vec![token_path(vec![1, 2], 0, "boosted"), token_path(vec![1, 3], 1, "suppressed")];
    let graph = HotwordContextGraph::build(paths, &[true, true], &[true, false]).unwrap();
    let shared = graph.forward(graph.root(), 1).next_state;
    assert_eq!(graph.direct_continuation_tokens(shared), &[2]);
    let low = graph.forward(shared, 3);
    assert!(low.matched.is_some());
    assert_eq!(low.next_state, graph.root());
    let high = graph.forward(shared, 2);
    assert!(high.matched.is_some());
    assert_ne!(high.matched, low.matched);
}

#[test]
fn reading_match_through_the_graph_returns_surface_and_token_span() {
    let paths = vec![HotwordTokenPath {
        tokens: vec![1, 2],
        entry_id: 7,
        surface: "斎藤".to_string(),
        kind: HotwordPathKind::Reading,
    }];
    let graph = HotwordContextGraph::build(paths, &[true], &[true]).unwrap();
    let matches = graph.find_matches(&[9, 1, 2, 8]);
    assert_eq!(matches.len(), 1);
    assert_eq!(matches[0].start_token, 1);
    assert_eq!(matches[0].end_token, 3);
    assert_eq!(matches[0].surface, "斎藤");
}

#[test]
fn graph_build_reports_validation_errors() {
    let ambiguous = vec![token_path(vec![1, 2], 0, "橋"), token_path(vec![1, 2], 1, "箸")];
    assert_eq!(
        HotwordContextGraph::build(ambiguous, &[true, true], &[true, true]).err(),
        Some(HotwordGraphError::AmbiguousSurface { previous: 0, path: 1 })
    );
    let prefix = vec![token_path(vec![1, 2], 0, "東京"), token_path(vec![1, 2, 3], 1, "東京都")];
    assert_eq!(
        HotwordContextGraph::build(prefix, &[true, true], &[true, true]).err(),
        Some(HotwordGraphError::TerminalPrefix { short: 0, long: 1 })
    );
}

#[test]
fn forward_keeps_the_longest_suffix_that_is_a_hotword_prefix() {
    // "1 2" then 4 leaves "2 4", a whole path, so it completes.
    let graph = words_graph(vec![vec![1, 2, 3], vec![2, 4]]);
    let state = walk(&graph, &[1, 2]);
    let step = graph.forward(state, 4);
    let two_four = graph.child(graph.child(graph.root(), 2).unwrap(), 4).unwrap();
    assert_eq!(step.reached, two_four);
    assert_eq!(step.matched, Some(two_four));
    assert_eq!(step.next_state, graph.root());
    // "1 2" then 2 keeps only "2".
    let step = graph.forward(state, 2);
    assert_eq!(step.reached, graph.child(graph.root(), 2).unwrap());
    assert_eq!(step.matched, None);
    // An unknown token falls back to the root.
    assert_eq!(graph.forward(state, 9).next_state, graph.root());
}

#[test]
fn every_prefix_has_one_state() {
    let graph = words_graph(vec![vec![1, 2], vec![1, 3], vec![4]]);
    assert_eq!(graph.num_states(), 5);
    assert_eq!(graph.child(graph.root(), 5), None);
    let one = graph.child(graph.root(), 1).unwrap();
    assert_ne!(graph.child(one, 2), graph.child(one, 3));
}

use parapper_models::decoder::hotword::{hotword_segments, HotwordSegment};

#[test]
fn hotword_matches_become_single_transcript_tokens() {
    let paths = vec![HotwordTokenPath {
        tokens: vec![1, 2],
        entry_id: 7,
        surface: "斎藤".to_string(),
        kind: HotwordPathKind::Reading,
    }];
    let graph = HotwordContextGraph::build(paths, &[true], &[true]).unwrap();
    let decoded = [9, 1, 2, 8, 1, 2];
    let matches = graph.find_matches(&decoded);
    assert_eq!(
        hotword_segments(decoded.len(), &matches),
        vec![
            HotwordSegment { first: 0, end: 1, matched: None },
            HotwordSegment { first: 1, end: 3, matched: Some(0) },
            HotwordSegment { first: 3, end: 4, matched: None },
            HotwordSegment { first: 4, end: 6, matched: Some(1) },
        ]
    );
    assert!(hotword_segments(0, &[]).is_empty());
    assert_eq!(
        hotword_segments(2, &[]),
        vec![
            HotwordSegment { first: 0, end: 1, matched: None },
            HotwordSegment { first: 1, end: 2, matched: None },
        ]
    );
}
