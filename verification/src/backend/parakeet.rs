//! Artifacts, search configuration and hotword tokenization of the Japanese
//! Parakeet TDT-CTC export.
use vstd::prelude::*;
use crate::backend::reazon::{char_token_id, lookup_char_token, HotwordTextError};
use crate::backend::token_table::{parse_blank_table, reports, spec_parse_blank_table, TokenTableError};
use crate::backend::segmentation::{
    candidate_lt, candidates_sorted, lemma_path_lt_irreflexive, lemma_path_lt_total,
    lemma_path_lt_transitive, lemma_sorted_candidates_unique, lemma_sorted_paths_unique, lex_lt,
    path_lt, paths_sorted,
};
use crate::backend::hotword_entries::{
    entries_paths, reports_paths, tokenize_hotword_entries, HotwordEntryError, HotwordTokenizer,
};
use crate::decoder::hotword::{HotwordEntry, HotwordPathKind, HotwordTokenPath};
use crate::model::str_table_view;
use crate::text::{char_is_whitespace, chars_of, is_unicode_whitespace, remove_whitespace, without_whitespace};

verus! {

/// Token id of the blank symbol.
pub const BLANK_ID: usize = 3_072;
/// Number of token classes, blank included.
pub const VOCAB_SIZE: usize = 3_073;
/// Largest number of token paths kept for one hotword text.
pub const MAX_PARAKEET_HOTWORD_PATHS_PER_TEXT: usize = 8;
/// Budget of piece expansions when segmenting one hotword text.
pub const MAX_PARAKEET_HOTWORD_SEGMENTATION_EXPANSIONS: usize = 4_096;
/// FNV-1a offset basis of the token-sequence hash.
pub const FNV_OFFSET_BASIS: u64 = 0xcbf2_9ce4_8422_2325;
/// FNV-1a prime of the token-sequence hash.
pub const FNV_PRIME: u64 = 0x0000_0100_0000_01b3;

/// Base artifacts of the accuracy-mode export.
pub open spec fn hybrid_required_files() -> Seq<Seq<char>> {
    seq![
        "encoder-model.int8.onnx"@,
        "encoder-model.int8.onnx.data"@,
        "decoder_joint-model.onnx"@,
        "vocab.txt"@,
    ]
}

/// Artifacts added when a CTC-gated hotword search is enabled.
pub open spec fn hybrid_ctc_gate_required_files() -> Seq<Seq<char>> {
    seq!["ctc-head-model.onnx"@, "ctc-head-model.onnx_data"@]
}

/// Artifacts of the fast shared-encoder CTC path.
pub open spec fn shared_ctc_required_files() -> Seq<Seq<char>> {
    seq![
        "encoder-model.int8.onnx"@,
        "encoder-model.int8.onnx.data"@,
        "ctc-head-model.onnx"@,
        "ctc-head-model.onnx_data"@,
        "vocab.txt"@,
    ]
}

pub fn hybrid_required_file_table() -> (r: &'static [&'static str])
    ensures
        str_table_view(r) == hybrid_required_files(),
{
    let r: &'static [&'static str] = &[
        "encoder-model.int8.onnx",
        "encoder-model.int8.onnx.data",
        "decoder_joint-model.onnx",
        "vocab.txt",
    ];
    assert(str_table_view(r) =~= hybrid_required_files());
    r
}

pub fn hybrid_ctc_gate_required_file_table() -> (r: &'static [&'static str])
    ensures
        str_table_view(r) == hybrid_ctc_gate_required_files(),
{
    let r: &'static [&'static str] = &["ctc-head-model.onnx", "ctc-head-model.onnx_data"];
    assert(str_table_view(r) =~= hybrid_ctc_gate_required_files());
    r
}

pub fn shared_ctc_required_file_table() -> (r: &'static [&'static str])
    ensures
        str_table_view(r) == shared_ctc_required_files(),
{
    let r: &'static [&'static str] = &[
        "encoder-model.int8.onnx",
        "encoder-model.int8.onnx.data",
        "ctc-head-model.onnx",
        "ctc-head-model.onnx_data",
        "vocab.txt",
    ];
    assert(str_table_view(r) =~= shared_ctc_required_files());
    r
}

/// Parses `vocab.txt`: every id below the vocabulary size once, with `<blk>`
/// at the blank id.
pub fn parse_vocab(contents: &str) -> (r: Result<Vec<String>, TokenTableError>)
    ensures
        reports(r, spec_parse_blank_table(contents@, VOCAB_SIZE as nat, BLANK_ID)),
{
    parse_blank_table(contents, VOCAB_SIZE, BLANK_ID)
}

/// How TDT durations are expanded in the frame-bucket search.
#[derive(Debug, Clone, Copy, PartialEq, Eq, Structural)]
pub enum FusedTdtDurationExpansion {
    All,
    Argmax,
}

/// CPU-oriented sparse frame-bucket TDT beam configuration.
#[derive(Debug, Clone, Copy, PartialEq, Eq, Structural)]
pub struct FusedTdtDagConfig {
    /// Merged hypotheses retained in one encoder-frame bucket.
    pub beam_size: usize,
    /// Guard on consecutive duration-0 emissions at one frame.
    pub max_symbols_per_step: usize,
    /// Whether every duration or only the most likely one is expanded.
    pub duration_expansion: FusedTdtDurationExpansion,
}

/// Decoder branch selected after the shared encoder.
#[derive(Debug, Clone, Copy, PartialEq, Eq, Structural)]
pub enum ParakeetJaDecodingStrategy {
    CtcGreedy,
    TdtGreedy,
    TdtVariableDag(FusedTdtDagConfig),
    TdtVariableDagStaticEmbedding(FusedTdtDagConfig),
}

/// Order of frame-bucket pruning and path merging.
#[derive(Debug, Clone, Copy, PartialEq, Eq, Structural)]
pub enum FusedTdtDagMergeOrder {
    /// Retain the acoustic top-k first, then merge duplicates without refilling.
    PruneThenMerge,
    /// Merge every duplicate in the bucket first, then retain the top-k paths.
    MergeThenPrune,
}

impl Default for FusedTdtDagMergeOrder {
    fn default() -> (r: Self)
        ensures
            r == FusedTdtDagMergeOrder::PruneThenMerge,
    {
        FusedTdtDagMergeOrder::PruneThenMerge
    }
}

/// Diagnostic switches of the DAG merge; the default is the production search.
#[derive(Debug, Clone, Copy, PartialEq, Eq, Structural)]
pub struct FusedTdtDagMergeAblation {
    pub order: FusedTdtDagMergeOrder,
    pub include_symbols_since_advance_in_key: bool,
}

impl Default for FusedTdtDagMergeAblation {
    fn default() -> (r: Self)
        ensures
            r == (FusedTdtDagMergeAblation {
                order: FusedTdtDagMergeOrder::PruneThenMerge,
                include_symbols_since_advance_in_key: false,
            }),
    {
        FusedTdtDagMergeAblation {
            order: FusedTdtDagMergeOrder::default(),
            include_symbols_since_advance_in_key: false,
        }
    }
}

/// How hotword token arcs enter each TDT hypothesis expansion.
#[derive(Debug, Clone, Copy, PartialEq, Eq, Structural)]
pub enum FusedTdtHotwordCandidatePolicy {
    /// Keep the acoustic top-k and append every reachable hotword continuation.
    InjectedAll,
    /// Form a wider acoustic shortlist, add only direct trie children, then
    /// keep `beam_size` tokens including blank.
    DirectPreTopK { acoustic_top_k: usize },
}

/// Search-management counters independent of encoder inference.
#[derive(Debug, Clone, Copy, PartialEq, Eq, Structural)]
pub struct FusedTdtDagStats {
    pub network_batches: usize,
    pub network_hypotheses: usize,
    pub generated_candidates: usize,
    pub max_active_width: usize,
    pub merge_calls: usize,
    pub merge_input_nodes: usize,
    pub duplicate_nodes_merged: usize,
    pub nodes_pruned: usize,
    pub underfilled_merge_calls: usize,
    pub symbol_budget_conflicts: usize,
}

impl Default for FusedTdtDagStats {
    fn default() -> (r: Self)
        ensures
            r == (FusedTdtDagStats {
                network_batches: 0,
                network_hypotheses: 0,
                generated_candidates: 0,
                max_active_width: 0,
                merge_calls: 0,
                merge_input_nodes: 0,
                duplicate_nodes_merged: 0,
                nodes_pruned: 0,
                underfilled_merge_calls: 0,
                symbol_budget_conflicts: 0,
            }),
    {
        FusedTdtDagStats {
            network_batches: 0,
            network_hypotheses: 0,
            generated_candidates: 0,
            max_active_width: 0,
            merge_calls: 0,
            merge_input_nodes: 0,
            duplicate_nodes_merged: 0,
            nodes_pruned: 0,
            underfilled_merge_calls: 0,
            symbol_budget_conflicts: 0,
        }
    }
}

/// One FNV-style step of the hash that keys merged DAG paths by their token
/// sequence: xor in the token plus one, then multiply by the prime, both
/// modulo 2^64.
pub open spec fn spec_update_sequence_hash(hash: u64, token: usize) -> u64 {
    let shifted = ((token as nat + 1) % 0x1_0000_0000_0000_0000nat) as u64;
    (((hash ^ shifted) as nat * FNV_PRIME as nat) % 0x1_0000_0000_0000_0000nat) as u64
}

pub fn update_sequence_hash(hash: u64, token: usize) -> (r: u64)
    ensures
        r == spec_update_sequence_hash(hash, token),
{
    (hash ^ (token as u64).wrapping_add(1)).wrapping_mul(FNV_PRIME)
}

/// Why a frame-bucket TDT search cannot start.
#[derive(Debug, Clone, Copy, PartialEq, Eq, Structural)]
pub enum FusedTdtDagError {
    /// The encoder output is not `frames` (at least one) rows of a nonzero width.
    EncoderShape,
    /// The encoder output holds a non-finite value.
    NonFiniteEncoder,
    ZeroBeam,
    ZeroMaxSymbols,
    /// The direct pre-Top-K policy was asked for without a context graph.
    DirectPolicyWithoutGraph,
    /// The direct pre-Top-K acoustic width is below the retained beam size.
    AcousticWidthBelowBeam,
}

impl FusedTdtDagError {
    pub fn message(self) -> (r: &'static str)
        ensures
            r@ == match self {
                FusedTdtDagError::EncoderShape => "invalid fused TDT encoder shape"@,
                FusedTdtDagError::NonFiniteEncoder => "fused TDT encoder contains a non-finite value"@,
                FusedTdtDagError::ZeroBeam => "fused TDT DAG beam size must be positive"@,
                FusedTdtDagError::ZeroMaxSymbols => "fused TDT DAG max symbols per step must be positive"@,
                FusedTdtDagError::DirectPolicyWithoutGraph => "direct pre-Top-K hotword policy requires a context graph"@,
                FusedTdtDagError::AcousticWidthBelowBeam => "direct pre-Top-K acoustic width must be at least the retained beam size"@,
            },
    {
        match self {
            FusedTdtDagError::EncoderShape => "invalid fused TDT encoder shape",
            FusedTdtDagError::NonFiniteEncoder => "fused TDT encoder contains a non-finite value",
            FusedTdtDagError::ZeroBeam => "fused TDT DAG beam size must be positive",
            FusedTdtDagError::ZeroMaxSymbols => "fused TDT DAG max symbols per step must be positive",
            FusedTdtDagError::DirectPolicyWithoutGraph => "direct pre-Top-K hotword policy requires a context graph",
            FusedTdtDagError::AcousticWidthBelowBeam => "direct pre-Top-K acoustic width must be at least the retained beam size",
        }
    }
}

/// What keeps a frame-bucket search from starting, checked in this order.
pub open spec fn fused_tdt_dag_request_error(
    encoder_len: usize,
    frames: usize,
    encoder_dim: usize,
    encoder_finite: bool,
    config: FusedTdtDagConfig,
    has_hotwords: bool,
    policy: FusedTdtHotwordCandidatePolicy,
) -> Option<FusedTdtDagError> {
    if frames == 0 || encoder_dim == 0 || encoder_len != frames * encoder_dim {
        Some(FusedTdtDagError::EncoderShape)
    } else if !encoder_finite {
        Some(FusedTdtDagError::NonFiniteEncoder)
    } else if config.beam_size == 0 {
        Some(FusedTdtDagError::ZeroBeam)
    } else if config.max_symbols_per_step == 0 {
        Some(FusedTdtDagError::ZeroMaxSymbols)
    } else {
        match policy {
            FusedTdtHotwordCandidatePolicy::DirectPreTopK { acoustic_top_k } => if !has_hotwords {
                Some(FusedTdtDagError::DirectPolicyWithoutGraph)
            } else if acoustic_top_k < config.beam_size {
                Some(FusedTdtDagError::AcousticWidthBelowBeam)
            } else {
                None
            },
            FusedTdtHotwordCandidatePolicy::InjectedAll => None,
        }
    }
}

/// Checks a frame-bucket search request; `encoder_finite` tells whether every
/// encoder value is finite.
pub fn validate_fused_tdt_dag_request(
    encoder_len: usize,
    frames: usize,
    encoder_dim: usize,
    encoder_finite: bool,
    config: FusedTdtDagConfig,
    has_hotwords: bool,
    policy: FusedTdtHotwordCandidatePolicy,
) -> (r: Result<(), FusedTdtDagError>)
    ensures
        r == match fused_tdt_dag_request_error(
            encoder_len,
            frames,
            encoder_dim,
            encoder_finite,
            config,
            has_hotwords,
            policy,
        ) {
            Some(e) => Err(e),
            None => Ok(()),
        },
{
    let shape_ok = match frames.checked_mul(encoder_dim) {
        Some(product) => product == encoder_len,
        None => false,
    };
    if frames == 0 || encoder_dim == 0 || !shape_ok {
        return Err(FusedTdtDagError::EncoderShape);
    }
    if !encoder_finite {
        return Err(FusedTdtDagError::NonFiniteEncoder);
    }
    if config.beam_size == 0 {
        return Err(FusedTdtDagError::ZeroBeam);
    }
    if config.max_symbols_per_step == 0 {
        return Err(FusedTdtDagError::ZeroMaxSymbols);
    }
    if let FusedTdtHotwordCandidatePolicy::DirectPreTopK { acoustic_top_k } = policy {
        if !has_hotwords {
            return Err(FusedTdtDagError::DirectPolicyWithoutGraph);
        }
        if acoustic_top_k < config.beam_size {
            return Err(FusedTdtDagError::AcousticWidthBelowBeam);
        }
    }
    Ok(())
}

/// Where a child hypothesis goes: back into the wave of the current frame, into
/// the bucket of a later frame, or among the completed hypotheses.
#[derive(Debug, Clone, Copy, PartialEq, Eq, Structural)]
pub enum DagRoute {
    SameFrame,
    Bucket(usize),
    Completed,
}

pub fn dag_child_route(child_frame: usize, current_frame: usize, frames: usize) -> (r: DagRoute)
    ensures
        r == if child_frame == current_frame {
            DagRoute::SameFrame
        } else if child_frame < frames {
            DagRoute::Bucket(child_frame)
        } else {
            DagRoute::Completed
        },
{
    if child_frame == current_frame {
        DagRoute::SameFrame
    } else if child_frame < frames {
        DagRoute::Bucket(child_frame)
    } else {
        DagRoute::Completed
    }
}

/// The count of emissions since the frame last advanced, after emitting with
/// `duration`; nothing when a duration-0 emission would reach the per-frame
/// symbol limit.
pub fn dag_emission_symbols(symbols_since_advance: usize, duration: usize, max_symbols_per_step: usize) -> (r:
    Option<usize>)
    ensures
        duration != 0 ==> r == Some(0usize),
        duration == 0 ==> r == if symbols_since_advance + 1 >= max_symbols_per_step {
            None
        } else {
            Some((symbols_since_advance + 1) as usize)
        },
{
    if duration != 0 {
        return Some(0);
    }
    if symbols_since_advance >= max_symbols_per_step || symbols_since_advance + 1 >= max_symbols_per_step {
        return None;
    }
    Some(symbols_since_advance + 1)
}

/// The continuation tokens among the first `k` that join the acoustic
/// shortlist: those below blank not already listed, in order.
pub open spec fn joining_continuations(acoustic: Seq<usize>, continuations: Seq<usize>, blank_id: usize, k: int) -> Seq<
    usize,
>
    decreases k,
{
    if k <= 0 {
        Seq::empty()
    } else {
        let earlier = joining_continuations(acoustic, continuations, blank_id, k - 1);
        let token = continuations[k - 1];
        if token < blank_id && !(acoustic + earlier).contains(token) {
            earlier.push(token)
        } else {
            earlier
        }
    }
}

/// The hotword continuation tokens appended to an acoustic shortlist.
pub fn joining_continuation_tokens(acoustic: &[usize], continuations: &[usize], blank_id: usize) -> (r: Vec<
    usize,
>)
    ensures
        r@ == joining_continuations(acoustic@, continuations@, blank_id, continuations@.len() as int),
{
    let mut joined: Vec<usize> = Vec::new();
    let mut k: usize = 0;
    while k < continuations.len()
        invariant
            k <= continuations@.len(),
            joined@ == joining_continuations(acoustic@, continuations@, blank_id, k as int),
        decreases continuations.len() - k,
    {
        let token = continuations[k];
        if token < blank_id && !listed(acoustic, &joined, token) {
            joined.push(token);
        }
        k = k + 1;
    }
    joined
}

/// Whether `token` is in `first` or `second`.
fn listed(first: &[usize], second: &Vec<usize>, token: usize) -> (r: bool)
    ensures
        r == (first@ + second@).contains(token),
{
    let mut i: usize = 0;
    while i < first.len()
        invariant
            i <= first@.len(),
            forall|j: int| 0 <= j < i ==> first@[j] != token,
        decreases first.len() - i,
    {
        if first[i] == token {
            proof {
                assert((first@ + second@)[i as int] == token);
            }
            return true;
        }
        i = i + 1;
    }
    let mut i: usize = 0;
    while i < second.len()
        invariant
            i <= second@.len(),
            forall|j: int| 0 <= j < first@.len() ==> first@[j] != token,
            forall|j: int| 0 <= j < i ==> second@[j] != token,
        decreases second.len() - i,
    {
        if second[i] == token {
            proof {
                assert((first@ + second@)[first@.len() + i] == token);
            }
            return true;
        }
        i = i + 1;
    }
    proof {
        assert forall|j: int| 0 <= j < (first@ + second@).len() implies (first@ + second@)[j] != token by {
            if j >= first@.len() {
                assert((first@ + second@)[j] == second@[j - first@.len()]);
            }
        }
    }
    false
}

/// A piece candidate: the position after the piece, its token id and its
/// length in characters.
pub open spec fn candidates_view(pieces: Seq<Vec<(usize, usize, usize)>>) -> Seq<
    Seq<(usize, usize, usize)>,
> {
    pieces.map_values(|list: Vec<(usize, usize, usize)>| list@)
}

/// Whether a vocabulary piece carries the SentencePiece word-boundary marker.
pub open spec fn has_marker(raw: Seq<char>) -> bool {
    raw.len() > 0 && raw[0] == '\u{2581}'
}

/// A vocabulary piece without its leading word-boundary marker.
pub open spec fn strip_marker(raw: Seq<char>) -> Seq<char> {
    if has_marker(raw) {
        raw.drop_first()
    } else {
        raw
    }
}

/// Whether a stripped piece can spell hotword text: it is non-empty, is not a
/// control symbol such as `<unk>`, and holds no whitespace.
pub open spec fn is_spelling_piece(piece: Seq<char>) -> bool {
    &&& piece.len() > 0
    &&& piece[0] != '<'
    &&& forall|i: int| 0 <= i < piece.len() ==> !is_unicode_whitespace(#[trigger] piece[i])
}

/// Whether the vocabulary piece `raw` spells `text` from character `start`
/// on; a piece with the word-boundary marker may only begin the text.
pub open spec fn piece_matches_at(text: Seq<char>, raw: Seq<char>, start: int) -> bool {
    let piece = strip_marker(raw);
    &&& is_spelling_piece(piece)
    &&& !has_marker(raw) || start == 0
    &&& 0 <= start
    &&& start + piece.len() <= text.len()
    &&& text.subrange(start, start + piece.len()) == piece
}

/// Whether `c` is the candidate of some vocabulary piece at `start`.
pub open spec fn is_piece_candidate(
    text: Seq<char>,
    vocabulary: Seq<String>,
    start: int,
    c: (usize, usize, usize),
) -> bool {
    &&& c.1 < vocabulary.len()
    &&& piece_matches_at(text, vocabulary[c.1 as int]@, start)
    &&& c.2 == strip_marker(vocabulary[c.1 as int]@).len()
    &&& c.0 == start + c.2
}

/// Whether `list` holds exactly the candidates at `start`, longest piece
/// first and lower token id first among pieces of one length.
pub open spec fn candidates_at(
    text: Seq<char>,
    vocabulary: Seq<String>,
    start: int,
    list: Seq<(usize, usize, usize)>,
) -> bool {
    &&& candidates_sorted(list)
    &&& forall|c: (usize, usize, usize)|
        list.contains(c) <==> is_piece_candidate(text, vocabulary, start, c)
}

/// The sorted candidate list of every start position of `text`.
pub open spec fn spec_piece_candidates(text: Seq<char>, vocabulary: Seq<String>) -> Seq<
    Seq<(usize, usize, usize)>,
> {
    Seq::new(
        text.len(),
        |start: int| choose|list: Seq<(usize, usize, usize)>| candidates_at(text, vocabulary, start, list),
    )
}

/// Whether every candidate at a position before `terminal` ends after it and
/// no later than `terminal`.
pub open spec fn pieces_well_formed(pieces: Seq<Seq<(usize, usize, usize)>>, terminal: int) -> bool {
    &&& pieces.len() == terminal
    &&& forall|s: int, i: int|
        0 <= s < terminal && 0 <= i < pieces[s].len() ==> s < (#[trigger] pieces[s][i]).0 <= terminal
}

fn candidate_less(a: (usize, usize, usize), b: (usize, usize, usize)) -> (r: bool)
    ensures
        r == candidate_lt(a, b),
{
    a.2 > b.2 || (a.2 == b.2 && (a.1 < b.1 || (a.1 == b.1 && a.0 < b.0)))
}

/// Inserts a new candidate at its sorted position.
fn insert_candidate(list: &mut Vec<(usize, usize, usize)>, c: (usize, usize, usize))
    requires
        candidates_sorted(old(list)@),
        !old(list)@.contains(c),
    ensures
        candidates_sorted(final(list)@),
        forall|x: (usize, usize, usize)|
            final(list)@.contains(x) <==> (old(list)@.contains(x) || x == c),
{
    let mut j: usize = 0;
    while j < list.len()
        invariant
            j <= list.len(),
            forall|i: int| 0 <= i < j ==> !candidate_lt(c, #[trigger] list@[i]),
        ensures
            j <= list.len(),
            forall|i: int| 0 <= i < j ==> !candidate_lt(c, #[trigger] list@[i]),
            j < list.len() ==> candidate_lt(c, list@[j as int]),
        decreases list.len() - j,
    {
        if candidate_less(c, list[j]) {
            break;
        }
        j = j + 1;
    }
    let ghost before = list@;
    proof {
        assert forall|i: int| 0 <= i < j implies candidate_lt(#[trigger] before[i], c) by {
            assert(before.contains(before[i]));
        }
    }
    list.insert(j, c);
    proof {
        let after = list@;
        assert(after == before.insert(j as int, c));
        assert forall|p: int, q: int| 0 <= p < q < after.len() implies candidate_lt(
            #[trigger] after[p],
            #[trigger] after[q],
        ) by {
            if q < j {
            } else if q == j {
            } else if p < j {
                assert(after[q] == before[q - 1]);
            } else if p == j {
                assert(after[q] == before[q - 1]);
                if q - 1 > j {
                    assert(candidate_lt(before[j as int], before[q - 1]));
                }
            } else {
                assert(after[p] == before[p - 1]);
                assert(after[q] == before[q - 1]);
            }
        }
        assert forall|x: (usize, usize, usize)| after.contains(x) <==> (before.contains(x) || x == c) by {
            if after.contains(x) {
                let k = choose|k: int| 0 <= k < after.len() && after[k] == x;
                if k < j {
                    assert(before[k] == x);
                } else if k > j {
                    assert(before[k - 1] == x);
                }
            }
            if before.contains(x) {
                let k = choose|k: int| 0 <= k < before.len() && before[k] == x;
                if k < j {
                    assert(after[k] == x);
                } else {
                    assert(after[k + 1] == x);
                }
            }
            if x == c {
                assert(after[j as int] == c);
            }
        }
    }
}

/// Copies `raw` without its leading word-boundary marker, and says whether
/// the marker was there.
fn strip_piece_marker(raw: &Vec<char>) -> (r: (Vec<char>, bool))
    ensures
        r.0@ == strip_marker(raw@),
        r.1 == has_marker(raw@),
{
    let marked = raw.len() > 0 && raw[0] == '\u{2581}';
    let mut piece: Vec<char> = Vec::new();
    let mut k: usize = if marked { 1 } else { 0 };
    let ghost first: int = k as int;
    while k < raw.len()
        invariant
            first <= k <= raw.len(),
            first == (if marked { 1int } else { 0int }),
            marked == has_marker(raw@),
            piece@ == raw@.subrange(first, k as int),
        decreases raw.len() - k,
    {
        piece.push(raw[k]);
        assert(raw@.subrange(first, k + 1) =~= raw@.subrange(first, k as int).push(raw@[k as int]));
        k = k + 1;
    }
    assert(raw@.subrange(first, raw.len() as int) =~= strip_marker(raw@));
    (piece, marked)
}

fn spells_hotwords(piece: &Vec<char>) -> (r: bool)
    ensures
        r == is_spelling_piece(piece@),
{
    if piece.len() == 0 || piece[0] == '<' {
        return false;
    }
    let mut k: usize = 0;
    while k < piece.len()
        invariant
            k <= piece.len(),
            forall|i: int| 0 <= i < k ==> !is_unicode_whitespace(#[trigger] piece@[i]),
        decreases piece.len() - k,
    {
        if char_is_whitespace(piece[k]) {
            return false;
        }
        k = k + 1;
    }
    true
}

/// Whether `piece` occurs in `text` at `start`.
fn occurs_at(text: &Vec<char>, start: usize, piece: &Vec<char>) -> (r: bool)
    requires
        start <= text.len(),
    ensures
        r == (start + piece.len() <= text.len() && text@.subrange(
            start as int,
            start + piece.len(),
        ) == piece@),
{
    if piece.len() > text.len() - start {
        return false;
    }
    let mut k: usize = 0;
    while k < piece.len()
        invariant
            k <= piece.len(),
            start + piece.len() <= text.len(),
            forall|i: int| 0 <= i < k ==> text@[start + i] == piece@[i],
        decreases piece.len() - k,
    {
        if text[start + k] != piece[k] {
            assert(text@.subrange(start as int, start + piece.len())[k as int] != piece@[k as int]);
            return false;
        }
        k = k + 1;
    }
    assert(text@.subrange(start as int, start + piece.len()) =~= piece@);
    true
}

/// For every start position of the whitespace-free hotword text, the pieces
/// of the vocabulary that spell the text from there: longest first, lower
/// token id first among pieces of one length.
pub fn parakeet_piece_candidates(normalized: &Vec<char>, vocabulary: &[String]) -> (r: Vec<
    Vec<(usize, usize, usize)>,
>)
    ensures
        candidates_view(r@) == spec_piece_candidates(normalized@, vocabulary@),
        pieces_well_formed(candidates_view(r@), normalized.len() as int),
        forall|s: int, i: int|
            0 <= s < r.len() && 0 <= i < r@[s]@.len() ==> is_piece_candidate(
                normalized@,
                vocabulary@,
                s,
                #[trigger] r@[s]@[i],
            ),
        forall|s: int, i: int|
            0 <= s < r.len() && 0 <= i < r@[s]@.len() && has_marker(
                vocabulary@[(#[trigger] r@[s]@[i]).1 as int]@,
            ) ==> s == 0,
{
    let mut pieces: Vec<Vec<char>> = Vec::new();
    let mut marked: Vec<bool> = Vec::new();
    let mut usable: Vec<bool> = Vec::new();
    let mut id: usize = 0;
    while id < vocabulary.len()
        invariant
            id <= vocabulary.len(),
            pieces.len() == id,
            marked.len() == id,
            usable.len() == id,
            forall|k: int| 0 <= k < id ==> (#[trigger] pieces@[k])@ == strip_marker(vocabulary@[k]@),
            forall|k: int| 0 <= k < id ==> #[trigger] marked@[k] == has_marker(vocabulary@[k]@),
            forall|k: int|
                0 <= k < id ==> #[trigger] usable@[k] == is_spelling_piece(
                    strip_marker(vocabulary@[k]@),
                ),
        decreases vocabulary.len() - id,
    {
        let raw = chars_of(vocabulary[id].as_str());
        let (piece, m) = strip_piece_marker(&raw);
        let u = spells_hotwords(&piece);
        pieces.push(piece);
        marked.push(m);
        usable.push(u);
        id = id + 1;
    }
    let ghost text = normalized@;
    let ghost vocab = vocabulary@;
    let mut pieces_at: Vec<Vec<(usize, usize, usize)>> = Vec::new();
    let mut start: usize = 0;
    while start < normalized.len()
        invariant
            start <= normalized.len(),
            text == normalized@,
            vocab == vocabulary@,
            pieces.len() == vocab.len(),
            marked.len() == vocab.len(),
            usable.len() == vocab.len(),
            forall|k: int| 0 <= k < vocab.len() ==> (#[trigger] pieces@[k])@ == strip_marker(vocab[k]@),
            forall|k: int| 0 <= k < vocab.len() ==> #[trigger] marked@[k] == has_marker(vocab[k]@),
            forall|k: int|
                0 <= k < vocab.len() ==> #[trigger] usable@[k] == is_spelling_piece(strip_marker(vocab[k]@)),
            pieces_at.len() == start,
            forall|s: int|
                0 <= s < start ==> (#[trigger] pieces_at@[s])@ == spec_piece_candidates(text, vocab)[s],
            forall|s: int, i: int|
                0 <= s < start && 0 <= i < pieces_at@[s]@.len() ==> s < (
                #[trigger] pieces_at@[s]@[i]).0 <= text.len(),
            forall|s: int, i: int|
                0 <= s < start && 0 <= i < pieces_at@[s]@.len() ==> is_piece_candidate(
                    text,
                    vocab,
                    s,
                    #[trigger] pieces_at@[s]@[i],
                ),
        decreases normalized.len() - start,
    {
        let mut list: Vec<(usize, usize, usize)> = Vec::new();
        let mut id: usize = 0;
        while id < vocabulary.len()
            invariant
                id <= vocabulary.len(),
                start < normalized.len(),
                text == normalized@,
                vocab == vocabulary@,
                pieces.len() == vocab.len(),
                marked.len() == vocab.len(),
                usable.len() == vocab.len(),
                forall|k: int| 0 <= k < vocab.len() ==> (#[trigger] pieces@[k])@ == strip_marker(vocab[k]@),
                forall|k: int| 0 <= k < vocab.len() ==> #[trigger] marked@[k] == has_marker(vocab[k]@),
                forall|k: int|
                    0 <= k < vocab.len() ==> #[trigger] usable@[k] == is_spelling_piece(
                        strip_marker(vocab[k]@),
                    ),
                candidates_sorted(list@),
                forall|c: (usize, usize, usize)|
                    list@.contains(c) <==> (c.1 < id && is_piece_candidate(text, vocab, start as int, c)),
            decreases vocabulary.len() - id,
        {
            let ghost before = list@;
            if usable[id] && (!marked[id] || start == 0) && occurs_at(normalized, start, &pieces[id]) {
                let count = pieces[id].len();
                let c = (start + count, id, count);
                assert(is_piece_candidate(text, vocab, start as int, c));
                insert_candidate(&mut list, c);
                assert forall|x: (usize, usize, usize)|
                    list@.contains(x) <==> (x.1 < id + 1 && is_piece_candidate(text, vocab, start as int, x)) by {
                    if x.1 == id && is_piece_candidate(text, vocab, start as int, x) {
                        assert(x == c);
                    }
                }
            } else {
                assert forall|x: (usize, usize, usize)|
                    list@.contains(x) <==> (x.1 < id + 1 && is_piece_candidate(text, vocab, start as int, x)) by {
                    if x.1 == id && is_piece_candidate(text, vocab, start as int, x) {
                        assert(usable@[id as int]);
                    }
                }
            }
            id = id + 1;
        }
        proof {
            assert(candidates_at(text, vocab, start as int, list@));
            let chosen = choose|l: Seq<(usize, usize, usize)>| candidates_at(text, vocab, start as int, l);
            assert(candidates_at(text, vocab, start as int, chosen));
            lemma_sorted_candidates_unique(list@, chosen);
            assert(spec_piece_candidates(text, vocab)[start as int] == chosen);
            assert forall|i: int| 0 <= i < list@.len() implies start < (#[trigger] list@[i]).0
                <= text.len() && is_piece_candidate(text, vocab, start as int, list@[i]) by {
                assert(list@.contains(list@[i]));
            }
        }
        pieces_at.push(list);
        start = start + 1;
    }
    proof {
        assert(candidates_view(pieces_at@) =~= spec_piece_candidates(text, vocab));
    }
    pieces_at
}

/// The token sequences of a list of paths.
pub open spec fn paths_view(paths: Seq<Vec<usize>>) -> Seq<Seq<usize>> {
    paths.map_values(|path: Vec<usize>| path@)
}

/// The depth-first segmentation from `position`: at the terminal the current
/// path is completed; elsewhere each candidate is tried in list order.
/// Returns the completed paths and the expansions spent.
pub open spec fn spec_visit_segmentations(
    pieces: Seq<Seq<(usize, usize, usize)>>,
    terminal: int,
    position: int,
    current: Seq<usize>,
    completed: Seq<Seq<usize>>,
    expansions: int,
) -> (Seq<Seq<usize>>, int)
    decreases terminal - position, 1int, 0int,
{
    if position == terminal {
        (completed.push(current), expansions)
    } else {
        spec_visit_candidates(pieces, terminal, position, 0, current, completed, expansions)
    }
}

/// The candidates of `position` from `index` on; every step spends one
/// expansion, and the walk stops for good once the budget is spent.
pub open spec fn spec_visit_candidates(
    pieces: Seq<Seq<(usize, usize, usize)>>,
    terminal: int,
    position: int,
    index: int,
    current: Seq<usize>,
    completed: Seq<Seq<usize>>,
    expansions: int,
) -> (Seq<Seq<usize>>, int)
    decreases terminal - position, 0int, pieces[position].len() - index,
{
    if index < 0 || index >= pieces[position].len() || expansions
        >= MAX_PARAKEET_HOTWORD_SEGMENTATION_EXPANSIONS {
        (completed, expansions)
    } else {
        let candidate = pieces[position][index];
        let end = candidate.0 as int;
        if !(position < end <= terminal) {
            (completed, expansions)
        } else {
            let (after, spent) = spec_visit_segmentations(
                pieces,
                terminal,
                end,
                current.push(candidate.1),
                completed,
                expansions + 1,
            );
            spec_visit_candidates(pieces, terminal, position, index + 1, current, after, spent)
        }
    }
}

/// A copy of a token path.
pub(crate) fn copy_path(path: &Vec<usize>) -> (r: Vec<usize>)
    ensures
        r@ == path@,
{
    let mut r: Vec<usize> = Vec::new();
    let mut k: usize = 0;
    while k < path.len()
        invariant
            k <= path.len(),
            r@ == path@.take(k as int),
        decreases path.len() - k,
    {
        r.push(path[k]);
        assert(path@.take(k + 1) =~= path@.take(k as int).push(path@[k as int]));
        k = k + 1;
    }
    assert(path@.take(path.len() as int) =~= path@);
    r
}

/// Depth-first enumeration of the segmentations of the text from `position`
/// on, trying each position's candidates in order; at most
/// `MAX_PARAKEET_HOTWORD_SEGMENTATION_EXPANSIONS` pieces are tried in all.
pub fn visit_parakeet_hotword_segmentations(
    position: usize,
    terminal: usize,
    pieces_at: &Vec<Vec<(usize, usize, usize)>>,
    current: &mut Vec<usize>,
    completed: &mut Vec<Vec<usize>>,
    expansions: &mut usize,
)
    requires
        position <= terminal,
        pieces_well_formed(candidates_view(pieces_at@), terminal as int),
        *old(expansions) <= MAX_PARAKEET_HOTWORD_SEGMENTATION_EXPANSIONS,
    ensures
        final(current)@ == old(current)@,
        *final(expansions) <= MAX_PARAKEET_HOTWORD_SEGMENTATION_EXPANSIONS,
        (paths_view(final(completed)@), *final(expansions) as int) == spec_visit_segmentations(
            candidates_view(pieces_at@),
            terminal as int,
            position as int,
            old(current)@,
            paths_view(old(completed)@),
            *old(expansions) as int,
        ),
    decreases terminal - position,
{
    let ghost pieces = candidates_view(pieces_at@);
    if position == terminal {
        let path = copy_path(current);
        let ghost before = completed@;
        completed.push(path);
        proof {
            assert(paths_view(completed@) =~= paths_view(before).push(old(current)@));
        }
        return;
    }
    let ghost current0 = current@;
    let ghost target = spec_visit_candidates(
        pieces,
        terminal as int,
        position as int,
        0,
        current0,
        paths_view(completed@),
        *expansions as int,
    );
    assert(pieces[position as int] == pieces_at@[position as int]@);
    let mut index: usize = 0;
    while index < pieces_at[position].len()
        invariant
            position < terminal,
            pieces == candidates_view(pieces_at@),
            pieces_well_formed(pieces, terminal as int),
            pieces[position as int] == pieces_at@[position as int]@,
            current@ == current0,
            current0 == old(current)@,
            target == spec_visit_segmentations(
                pieces,
                terminal as int,
                position as int,
                old(current)@,
                paths_view(old(completed)@),
                *old(expansions) as int,
            ),
            *expansions <= MAX_PARAKEET_HOTWORD_SEGMENTATION_EXPANSIONS,
            index <= pieces_at@[position as int].len(),
            spec_visit_candidates(
                pieces,
                terminal as int,
                position as int,
                index as int,
                current0,
                paths_view(completed@),
                *expansions as int,
            ) == target,
        decreases pieces_at@[position as int].len() - index,
    {
        if *expansions >= MAX_PARAKEET_HOTWORD_SEGMENTATION_EXPANSIONS {
            return;
        }
        let (end, token_id, _) = pieces_at[position][index];
        assert(pieces[position as int][index as int] == (end, token_id, pieces_at@[position as int]@[index as int].2));
        assert(position < end <= terminal);
        *expansions = *expansions + 1;
        current.push(token_id);
        visit_parakeet_hotword_segmentations(end, terminal, pieces_at, current, completed, expansions);
        current.pop();
        proof {
            assert(current@ =~= current0);
        }
        index = index + 1;
    }
}

/// Whether `a` comes before `b`: fewer tokens, or as many and
/// lexicographically smaller.
fn path_less(a: &Vec<usize>, b: &Vec<usize>) -> (r: bool)
    ensures
        r == path_lt(a@, b@),
{
    if a.len() != b.len() {
        return a.len() < b.len();
    }
    assert(a@.skip(0) =~= a@);
    assert(b@.skip(0) =~= b@);
    let mut k: usize = 0;
    while k < a.len()
        invariant
            k <= a.len(),
            a.len() == b.len(),
            lex_lt(a@, b@) == lex_lt(a@.skip(k as int), b@.skip(k as int)),
        decreases a.len() - k,
    {
        assert(a@.skip(k as int)[0] == a@[k as int]);
        assert(b@.skip(k as int)[0] == b@[k as int]);
        if a[k] != b[k] {
            return a[k] < b[k];
        }
        assert(a@.skip(k as int).drop_first() =~= a@.skip(k + 1));
        assert(b@.skip(k as int).drop_first() =~= b@.skip(k + 1));
        k = k + 1;
    }
    assert(a@.skip(k as int).len() == 0);
    false
}

/// Whether two paths hold the same tokens.
pub(crate) fn same_path(a: &Vec<usize>, b: &Vec<usize>) -> (r: bool)
    ensures
        r == (a@ == b@),
{
    if a.len() != b.len() {
        return false;
    }
    let mut k: usize = 0;
    while k < a.len()
        invariant
            k <= a.len(),
            a.len() == b.len(),
            forall|i: int| 0 <= i < k ==> a@[i] == b@[i],
        decreases a.len() - k,
    {
        if a[k] != b[k] {
            return false;
        }
        k = k + 1;
    }
    assert(a@ =~= b@);
    true
}

pub open spec fn optional_path_view(path: Option<Vec<usize>>) -> Option<Seq<usize>> {
    match path {
        Some(p) => Some(p@),
        None => None,
    }
}

/// Whether `ordered` lists every completed path other than `excluded` once,
/// in path order.
pub open spec fn orders_alternatives(
    ordered: Seq<Seq<usize>>,
    completed: Seq<Seq<usize>>,
    excluded: Option<Seq<usize>>,
) -> bool {
    &&& paths_sorted(ordered)
    &&& forall|x: Seq<usize>| ordered.contains(x) <==> (completed.contains(x) && excluded != Some(x))
}

/// The completed paths other than `excluded`, without repeats, in path order.
pub open spec fn ordered_alternatives(
    completed: Seq<Seq<usize>>,
    excluded: Option<Seq<usize>>,
) -> Seq<Seq<usize>> {
    choose|ordered: Seq<Seq<usize>>| orders_alternatives(ordered, completed, excluded)
}

/// Sorts the completed paths, drops repeats and the excluded path.
fn ordered_distinct_paths(completed: &Vec<Vec<usize>>, excluded: &Option<Vec<usize>>) -> (r: Vec<
    Vec<usize>,
>)
    ensures
        orders_alternatives(paths_view(r@), paths_view(completed@), optional_path_view(*excluded)),
{
    let ghost ex = optional_path_view(*excluded);
    let ghost all = paths_view(completed@);
    let mut ordered: Vec<Vec<usize>> = Vec::new();
    let mut i: usize = 0;
    while i < completed.len()
        invariant
            i <= completed.len(),
            ex == optional_path_view(*excluded),
            all == paths_view(completed@),
            paths_sorted(paths_view(ordered@)),
            forall|x: Seq<usize>|
                paths_view(ordered@).contains(x) <==> (all.take(i as int).contains(x) && ex != Some(x)),
        decreases completed.len() - i,
    {
        let path = &completed[i];
        let ghost p = path@;
        let ghost before = paths_view(ordered@);
        assert(all[i as int] == p);
        let ghost next = all.take(i + 1);
        let ghost prev = all.take(i as int);
        assert forall|x: Seq<usize>| next.contains(x) <==> (prev.contains(x) || x == p) by {
            if next.contains(x) {
                let k = choose|k: int| 0 <= k < next.len() && next[k] == x;
                if k < i {
                    assert(prev[k] == x);
                }
            }
            if prev.contains(x) {
                let k = choose|k: int| 0 <= k < prev.len() && prev[k] == x;
                assert(next[k] == x);
            }
            if x == p {
                assert(next[i as int] == x);
            }
        }
        let is_excluded = match excluded {
            Some(e) => same_path(e, path),
            None => false,
        };
        if !is_excluded {
            let mut j: usize = 0;
            while j < ordered.len()
                invariant
                    j <= ordered.len(),
                    before == paths_view(ordered@),
                    p == path@,
                    forall|q: int| 0 <= q < j ==> path_lt(#[trigger] before[q], p),
                ensures
                    j <= ordered.len(),
                    forall|q: int| 0 <= q < j ==> path_lt(#[trigger] before[q], p),
                    j < ordered.len() ==> !path_lt(before[j as int], p),
                decreases ordered.len() - j,
            {
                if !path_less(&ordered[j], path) {
                    break;
                }
                j = j + 1;
            }
            if j < ordered.len() && same_path(&ordered[j], path) {
                assert(before[j as int] == p);
                assert(before.contains(p));
            } else {
                let copy = copy_path(path);
                ordered.insert(j, copy);
                proof {
                    let after = paths_view(ordered@);
                    assert(after =~= before.insert(j as int, p));
                    if j < before.len() {
                        lemma_path_lt_total(before[j as int], p);
                    }
                    assert forall|a: int, b: int| 0 <= a < b < after.len() implies path_lt(
                        #[trigger] after[a],
                        #[trigger] after[b],
                    ) by {
                        if b < j {
                        } else if b == j {
                        } else if a < j {
                            assert(after[b] == before[b - 1]);
                        } else if a == j {
                            assert(after[b] == before[b - 1]);
                            if b - 1 > j {
                                lemma_path_lt_transitive(p, before[j as int], before[b - 1]);
                            }
                        } else {
                            assert(after[a] == before[a - 1]);
                            assert(after[b] == before[b - 1]);
                        }
                    }
                    assert forall|x: Seq<usize>| after.contains(x) <==> (before.contains(x) || x == p) by {
                        if after.contains(x) {
                            let k = choose|k: int| 0 <= k < after.len() && after[k] == x;
                            if k < j {
                                assert(before[k] == x);
                            } else if k > j {
                                assert(before[k - 1] == x);
                            }
                        }
                        if before.contains(x) {
                            let k = choose|k: int| 0 <= k < before.len() && before[k] == x;
                            if k < j {
                                assert(after[k] == x);
                            } else {
                                assert(after[k + 1] == x);
                            }
                        }
                        if x == p {
                            assert(after[j as int] == p);
                        }
                    }
                }
            }
        }
        i = i + 1;
    }
    assert(all.take(completed.len() as int) =~= all);
    ordered
}

/// The path that spells the text one character per token, when every
/// character has a one-character token.
pub open spec fn spec_character_path(vocabulary: Seq<String>, normalized: Seq<char>) -> Option<
    Seq<usize>,
> {
    if forall|i: int|
        0 <= i < normalized.len() ==> (#[trigger] char_token_id(vocabulary, normalized[i])) is Some {
        Some(normalized.map_values(|c: char| char_token_id(vocabulary, c).unwrap()))
    } else {
        None
    }
}

fn character_path(normalized: &Vec<char>, vocabulary: &[String]) -> (r: Option<Vec<usize>>)
    ensures
        optional_path_view(r) == spec_character_path(vocabulary@, normalized@),
{
    let mut ids: Vec<usize> = Vec::new();
    let mut k: usize = 0;
    while k < normalized.len()
        invariant
            k <= normalized.len(),
            ids@ == normalized@.take(k as int).map_values(|c: char| char_token_id(vocabulary@, c).unwrap()),
            forall|i: int| 0 <= i < k ==> (#[trigger] char_token_id(vocabulary@, normalized@[i])) is Some,
        decreases normalized.len() - k,
    {
        match lookup_char_token(vocabulary, normalized[k]) {
            Some(id) => {
                ids.push(id);
                assert(normalized@.take(k + 1).map_values(|c: char| char_token_id(vocabulary@, c).unwrap())
                    =~= normalized@.take(k as int).map_values(|c: char| char_token_id(vocabulary@, c).unwrap()).push(id));
            },
            None => {
                return None;
            },
        }
        k = k + 1;
    }
    assert(normalized@.take(normalized.len() as int) =~= normalized@);
    Some(ids)
}

/// Every completed segmentation of the whitespace-free text, in the order
/// of the budgeted depth-first search.
pub open spec fn spec_hotword_segmentations(normalized: Seq<char>, vocabulary: Seq<String>) -> Seq<
    Seq<usize>,
> {
    spec_visit_segmentations(
        spec_piece_candidates(normalized, vocabulary),
        normalized.len() as int,
        0,
        Seq::empty(),
        Seq::empty(),
        0,
    ).0
}

/// The character path first, when there is one, then the other
/// segmentations in path order, at most `MAX_PARAKEET_HOTWORD_PATHS_PER_TEXT`
/// in all.
pub open spec fn select_paths(character: Option<Seq<usize>>, alternatives: Seq<Seq<usize>>) -> Seq<
    Seq<usize>,
> {
    match character {
        Some(path) => seq![path] + (if alternatives.len() < MAX_PARAKEET_HOTWORD_PATHS_PER_TEXT - 1 {
            alternatives
        } else {
            alternatives.take(MAX_PARAKEET_HOTWORD_PATHS_PER_TEXT - 1)
        }),
        None => if alternatives.len() < MAX_PARAKEET_HOTWORD_PATHS_PER_TEXT {
            alternatives
        } else {
            alternatives.take(MAX_PARAKEET_HOTWORD_PATHS_PER_TEXT as int)
        },
    }
}

pub open spec fn spec_tokenize_parakeet_hotword_text(
    text: Seq<char>,
    vocabulary: Seq<String>,
    kind: HotwordPathKind,
) -> Result<Seq<Seq<usize>>, HotwordTextError> {
    let normalized = without_whitespace(text);
    let character = spec_character_path(vocabulary, normalized);
    let selected = select_paths(
        character,
        ordered_alternatives(spec_hotword_segmentations(normalized, vocabulary), character),
    );
    if normalized.len() == 0 {
        Err(HotwordTextError::Empty { kind })
    } else if selected.len() == 0 {
        Err(HotwordTextError::Unsegmentable { kind })
    } else {
        Ok(selected)
    }
}

/// The text a path of vocabulary pieces spells, word-boundary markers
/// stripped.
pub open spec fn spelled_text(vocabulary: Seq<String>, path: Seq<usize>) -> Seq<char>
    decreases path.len(),
{
    if path.len() == 0 {
        Seq::empty()
    } else {
        spelled_text(vocabulary, path.drop_last()) + strip_marker(vocabulary[path.last() as int]@)
    }
}

/// Whether every candidate of `pieces` spells `text` from its start position
/// to its end.
pub open spec fn pieces_spell(
    pieces: Seq<Seq<(usize, usize, usize)>>,
    text: Seq<char>,
    vocabulary: Seq<String>,
) -> bool {
    forall|s: int, i: int|
        0 <= s < pieces.len() && 0 <= i < pieces[s].len() ==> {
            let c = #[trigger] pieces[s][i];
            &&& c.1 < vocabulary.len()
            &&& s < c.0 <= text.len()
            &&& text.subrange(s, c.0 as int) == strip_marker(vocabulary[c.1 as int]@)
        }
}

/// Every path completed by the search spells the whole text when the paths
/// it starts with do and the current path spells the text up to `position`.
pub proof fn lemma_visit_spells_the_text(
    pieces: Seq<Seq<(usize, usize, usize)>>,
    text: Seq<char>,
    vocabulary: Seq<String>,
    position: int,
    current: Seq<usize>,
    completed: Seq<Seq<usize>>,
    expansions: int,
)
    requires
        pieces.len() == text.len(),
        pieces_spell(pieces, text, vocabulary),
        0 <= position <= text.len(),
        spelled_text(vocabulary, current) == text.take(position),
        forall|x: Seq<usize>| completed.contains(x) ==> spelled_text(vocabulary, x) == text,
    ensures
        forall|x: Seq<usize>|
            spec_visit_segmentations(
                pieces,
                text.len() as int,
                position,
                current,
                completed,
                expansions,
            ).0.contains(x) ==> spelled_text(vocabulary, x) == text,
    decreases text.len() - position, 1int, 0int,
{
    if position == text.len() {
        assert(text.take(position) =~= text);
        let after = completed.push(current);
        assert forall|x: Seq<usize>| after.contains(x) implies spelled_text(vocabulary, x) == text by {
            let k = choose|k: int| 0 <= k < after.len() && after[k] == x;
            if k < completed.len() {
                assert(completed[k] == x);
                assert(completed.contains(x));
            }
        }
    } else {
        lemma_visit_candidates_spell_the_text(
            pieces,
            text,
            vocabulary,
            position,
            0,
            current,
            completed,
            expansions,
        );
    }
}

pub proof fn lemma_visit_candidates_spell_the_text(
    pieces: Seq<Seq<(usize, usize, usize)>>,
    text: Seq<char>,
    vocabulary: Seq<String>,
    position: int,
    index: int,
    current: Seq<usize>,
    completed: Seq<Seq<usize>>,
    expansions: int,
)
    requires
        pieces.len() == text.len(),
        pieces_spell(pieces, text, vocabulary),
        0 <= position < text.len(),
        spelled_text(vocabulary, current) == text.take(position),
        forall|x: Seq<usize>| completed.contains(x) ==> spelled_text(vocabulary, x) == text,
    ensures
        forall|x: Seq<usize>|
            spec_visit_candidates(
                pieces,
                text.len() as int,
                position,
                index,
                current,
                completed,
                expansions,
            ).0.contains(x) ==> spelled_text(vocabulary, x) == text,
    decreases text.len() - position, 0int, pieces[position].len() - index,
{
    let terminal = text.len() as int;
    if index < 0 || index >= pieces[position].len() || expansions
        >= MAX_PARAKEET_HOTWORD_SEGMENTATION_EXPANSIONS {
    } else {
        let candidate = pieces[position][index];
        let end = candidate.0 as int;
        if position < end <= terminal {
            let next = current.push(candidate.1);
            assert(next.drop_last() =~= current);
            assert(text.take(end) =~= text.take(position) + text.subrange(position, end));
            assert(spelled_text(vocabulary, next) == text.take(end));
            lemma_visit_spells_the_text(
                pieces,
                text,
                vocabulary,
                end,
                next,
                completed,
                expansions + 1,
            );
            let (after, spent) = spec_visit_segmentations(
                pieces,
                terminal,
                end,
                next,
                completed,
                expansions + 1,
            );
            lemma_visit_candidates_spell_the_text(
                pieces,
                text,
                vocabulary,
                position,
                index + 1,
                current,
                after,
                spent,
            );
        }
    }
}

/// Token paths for a hotword text: the one-token-per-character path first
/// when the vocabulary has it, then vocabulary-piece segmentations by length
/// and token ids, at most eight paths.
pub fn tokenize_parakeet_hotword_text(
    text: &str,
    vocabulary: &[String],
    kind: HotwordPathKind,
) -> (r: Result<Vec<Vec<usize>>, HotwordTextError>)
    ensures
        match spec_tokenize_parakeet_hotword_text(text@, vocabulary@, kind) {
            Ok(paths) => r is Ok && paths_view(r->Ok_0@) == paths,
            Err(e) => r == Err::<Vec<Vec<usize>>, HotwordTextError>(e),
        },
        r matches Ok(paths) ==> 1 <= paths.len() <= MAX_PARAKEET_HOTWORD_PATHS_PER_TEXT,
        r matches Ok(paths) ==> forall|i: int, j: int|
            0 <= i < j < paths.len() ==> (#[trigger] paths@[i])@ != (#[trigger] paths@[j])@,
        ({
            let normalized = without_whitespace(text@);
            (normalized.len() > 0 && spec_character_path(vocabulary@, normalized) is Some) ==> (
            r matches Ok(paths) && paths@[0]@ == spec_character_path(vocabulary@, normalized)->0)
        }),
        ({
            let normalized = without_whitespace(text@);
            r matches Ok(paths) ==> forall|i: int|
                0 <= i < paths.len() && (i > 0 || spec_character_path(vocabulary@, normalized) is None)
                    ==> spelled_text(vocabulary@, (#[trigger] paths@[i])@) == normalized
        }),
{
    let all = chars_of(text);
    let normalized = remove_whitespace(&all);
    if normalized.len() == 0 {
        return Err(HotwordTextError::Empty { kind });
    }
    let character = character_path(&normalized, vocabulary);
    let pieces_at = parakeet_piece_candidates(&normalized, vocabulary);
    let mut current: Vec<usize> = Vec::new();
    let mut completed: Vec<Vec<usize>> = Vec::new();
    let mut expansions: usize = 0;
    visit_parakeet_hotword_segmentations(
        0,
        normalized.len(),
        &pieces_at,
        &mut current,
        &mut completed,
        &mut expansions,
    );
    proof {
        assert(paths_view(Seq::<Vec<usize>>::empty()) =~= Seq::<Seq<usize>>::empty());
    }
    let alternatives = ordered_distinct_paths(&completed, &character);
    let ghost segmentations = spec_hotword_segmentations(normalized@, vocabulary@);
    let ghost cp = spec_character_path(vocabulary@, normalized@);
    proof {
        assert(paths_view(completed@) == segmentations);
        let chosen = ordered_alternatives(segmentations, cp);
        assert(orders_alternatives(paths_view(alternatives@), segmentations, cp));
        assert(orders_alternatives(chosen, segmentations, cp));
        lemma_sorted_paths_unique(paths_view(alternatives@), chosen);
        let pieces = candidates_view(pieces_at@);
        assert(pieces_spell(pieces, normalized@, vocabulary@)) by {
            assert forall|s: int, i: int| 0 <= s < pieces.len() && 0 <= i < pieces[s].len() implies {
                let c = #[trigger] pieces[s][i];
                &&& c.1 < vocabulary@.len()
                &&& s < c.0 <= normalized@.len()
                &&& normalized@.subrange(s, c.0 as int) == strip_marker(vocabulary@[c.1 as int]@)
            } by {
                assert(pieces[s][i] == pieces_at@[s]@[i]);
                assert(is_piece_candidate(normalized@, vocabulary@, s, pieces_at@[s]@[i]));
            }
        }
        assert(spelled_text(vocabulary@, Seq::<usize>::empty()) == normalized@.take(0));
        lemma_visit_spells_the_text(
            pieces,
            normalized@,
            vocabulary@,
            0,
            Seq::empty(),
            Seq::empty(),
            0,
        );
        assert forall|x: Seq<usize>| paths_view(alternatives@).contains(x) implies spelled_text(
            vocabulary@,
            x,
        ) == normalized@ && cp != Some(x) by {
            assert(segmentations.contains(x));
        }
    }
    let ghost alts = paths_view(alternatives@);
    let mut selected: Vec<Vec<usize>> = Vec::new();
    let limit: usize = match &character {
        Some(path) => {
            selected.push(copy_path(path));
            MAX_PARAKEET_HOTWORD_PATHS_PER_TEXT - 1
        },
        None => MAX_PARAKEET_HOTWORD_PATHS_PER_TEXT,
    };
    let ghost head = paths_view(selected@);
    let mut k: usize = 0;
    while k < alternatives.len() && k < limit
        invariant
            k <= alternatives.len(),
            k <= limit,
            alts == paths_view(alternatives@),
            paths_view(selected@) == head + alts.take(k as int),
        decreases alternatives.len() - k,
    {
        let copy = copy_path(&alternatives[k]);
        let ghost before = selected@;
        selected.push(copy);
        proof {
            assert(paths_view(selected@) =~= paths_view(before).push(alts[k as int]));
            assert(alts.take(k + 1) =~= alts.take(k as int).push(alts[k as int]));
            assert(head + alts.take(k + 1) =~= (head + alts.take(k as int)).push(alts[k as int]));
        }
        k = k + 1;
    }
    proof {
        if alts.len() < limit {
            assert(alts.take(k as int) =~= alts);
        }
        match cp {
            Some(path) => {
                assert(head =~= seq![path]);
            },
            None => {
                assert(head =~= Seq::<Seq<usize>>::empty());
                assert(head + alts.take(k as int) =~= alts.take(k as int));
            },
        }
    }
    proof {
        let sel = paths_view(selected@);
        assert(sel.len() <= MAX_PARAKEET_HOTWORD_PATHS_PER_TEXT);
        assert forall|i: int| 0 <= i < sel.len() && (i > 0 || cp is None) implies spelled_text(
            vocabulary@,
            (#[trigger] selected@[i])@,
        ) == normalized@ && cp != Some(sel[i]) && alts.contains(sel[i]) by {
            assert(sel[i] == selected@[i]@);
            let q = if cp is Some { i - 1 } else { i };
            assert(sel[i] == alts[q]);
            assert(alts.contains(alts[q]));
        }
        if cp is Some {
            assert(sel[0] == head[0]);
            assert(sel[0] == selected@[0]@);
        }
        assert forall|i: int, j: int| 0 <= i < j < sel.len() implies (#[trigger] selected@[i])@
            != (#[trigger] selected@[j])@ by {
            assert(sel[i] == selected@[i]@);
            assert(sel[j] == selected@[j]@);
            if i > 0 || cp is None {
                let qi = if cp is Some { i - 1 } else { i };
                let qj = if cp is Some { j - 1 } else { j };
                assert(sel[i] == alts[qi]);
                assert(sel[j] == alts[qj]);
                assert(path_lt(alts[qi], alts[qj]));
                lemma_path_lt_irreflexive(alts[qi]);
            } else {
                assert(cp != Some(sel[j]));
            }
        }
    }
    if selected.len() == 0 {
        return Err(HotwordTextError::Unsegmentable { kind });
    }
    Ok(selected)
}

/// The token paths of registered hotwords: every segmentation of each
/// surface and of the hiragana and katakana forms of each reading.
pub fn tokenize_parakeet_hotword_entries(
    entries: &[HotwordEntry],
    vocabulary: &[String],
) -> (r: Result<Vec<HotwordTokenPath>, HotwordEntryError>)
    ensures
        reports_paths(
            r,
            entries_paths(HotwordTokenizer::Parakeet, entries@, entries@.len() as int, vocabulary@),
        ),
{
    tokenize_hotword_entries(HotwordTokenizer::Parakeet, entries, vocabulary)
}

/// Tokenization depends on the hotword text only through its
/// non-whitespace characters.
pub proof fn lemma_tokenization_ignores_whitespace(
    first: Seq<char>,
    second: Seq<char>,
    vocabulary: Seq<String>,
    kind: HotwordPathKind,
)
    requires
        without_whitespace(first) == without_whitespace(second),
    ensures
        spec_tokenize_parakeet_hotword_text(first, vocabulary, kind)
            == spec_tokenize_parakeet_hotword_text(second, vocabulary, kind),
{
}


/// Whether path `i` carries an entry id that an earlier path carries under
/// another surface.
pub open spec fn surface_conflict_at(paths: Seq<HotwordTokenPath>, i: int) -> bool {
    exists|j: int|
        0 <= j < i && (#[trigger] paths[j]).entry_id == paths[i].entry_id && paths[j].surface@
            != paths[i].surface@
}

/// The first path whose entry id was already registered under another
/// surface: a hotword filter refuses such a path list there.
pub fn first_entry_surface_conflict(paths: &[HotwordTokenPath]) -> (r: Option<usize>)
    ensures
        match r {
            Some(i) => {
                &&& i < paths@.len()
                &&& surface_conflict_at(paths@, i as int)
                &&& forall|k: int| 0 <= k < i ==> !#[trigger] surface_conflict_at(paths@, k)
            },
            None => forall|k: int| 0 <= k < paths@.len() ==> !#[trigger] surface_conflict_at(paths@, k),
        },
{
    let mut i: usize = 0;
    while i < paths.len()
        invariant
            i <= paths@.len(),
            forall|k: int| 0 <= k < i ==> !#[trigger] surface_conflict_at(paths@, k),
        decreases paths.len() - i,
    {
        let mut j: usize = 0;
        while j < i
            invariant
                i < paths@.len(),
                j <= i,
                forall|k: int| 0 <= k < i ==> !#[trigger] surface_conflict_at(paths@, k),
                forall|k: int|
                    0 <= k < j ==> !((#[trigger] paths@[k]).entry_id == paths@[i as int].entry_id
                        && paths@[k].surface@ != paths@[i as int].surface@),
            decreases i - j,
        {
            if paths[j].entry_id == paths[i].entry_id && !(paths[j].surface == paths[i].surface) {
                proof {
                    assert(paths@[j as int].entry_id == paths@[i as int].entry_id);
                    assert(paths@[j as int].surface@ != paths@[i as int].surface@);
                    assert(surface_conflict_at(paths@, i as int));
                }
                return Some(i);
            }
            j = j + 1;
        }
        i = i + 1;
    }
    None
}

/// Whether some path of entry `entry_id` was admitted.
pub open spec fn entry_admitted(entry_ids: Seq<usize>, admitted: Seq<bool>, entry_id: usize) -> bool {
    exists|j: int| 0 <= j < entry_ids.len() && #[trigger] entry_ids[j] == entry_id && admitted[j]
}

/// The indices, among the first `count` paths, of those whose entry was admitted.
pub open spec fn gated_indices(entry_ids: Seq<usize>, admitted: Seq<bool>, count: int) -> Seq<usize>
    decreases count,
{
    if count <= 0 {
        Seq::empty()
    } else {
        let earlier = gated_indices(entry_ids, admitted, count - 1);
        if entry_admitted(entry_ids, admitted, entry_ids[count - 1]) {
            earlier.push((count - 1) as usize)
        } else {
            earlier
        }
    }
}

proof fn lemma_gated_indices_prefix(entry_ids: Seq<usize>, admitted: Seq<bool>, count: int)
    requires
        0 <= count <= entry_ids.len(),
        entry_ids.len() == admitted.len(),
        entry_ids.len() <= usize::MAX,
    ensures
        ({
            let kept = gated_indices(entry_ids, admitted, count);
            &&& forall|i: usize|
                #[trigger] kept.contains(i) <==> (i < count && exists|j: int|
                    0 <= j < entry_ids.len() && entry_ids[j] == entry_ids[i as int] && admitted[j])
            &&& forall|a: int, b: int| 0 <= a < b < kept.len() ==> kept[a] < kept[b]
            &&& forall|a: int| 0 <= a < kept.len() ==> #[trigger] kept[a] < count
        }),
    decreases count,
{
    if count > 0 {
        lemma_gated_indices_prefix(entry_ids, admitted, count - 1);
        let earlier = gated_indices(entry_ids, admitted, count - 1);
        let kept = gated_indices(entry_ids, admitted, count);
        let last = (count - 1) as usize;
        if entry_admitted(entry_ids, admitted, entry_ids[count - 1]) {
            assert(kept =~= earlier.push(last));
            assert forall|i: usize|
                #[trigger] kept.contains(i) <==> (i < count && exists|j: int|
                    0 <= j < entry_ids.len() && entry_ids[j] == entry_ids[i as int] && admitted[j]) by {
                if kept.contains(i) && i != last {
                    let a = choose|a: int| 0 <= a < kept.len() && kept[a] == i;
                    assert(a != earlier.len());
                    assert(earlier[a] == i);
                    assert(earlier.contains(i));
                }
                if i < count - 1 && exists|j: int|
                    0 <= j < entry_ids.len() && entry_ids[j] == entry_ids[i as int] && admitted[j] {
                    assert(earlier.contains(i));
                    let a = choose|a: int| 0 <= a < earlier.len() && earlier[a] == i;
                    assert(kept[a] == i);
                }
                if i == last {
                    assert(kept[kept.len() - 1] == i);
                    let j = choose|j: int| 0 <= j < entry_ids.len() && #[trigger] entry_ids[j] == entry_ids[count - 1] && admitted[j];
                    assert(entry_ids[j] == entry_ids[i as int] && admitted[j]);
                }
            }
            assert forall|a: int, b: int| 0 <= a < b < kept.len() implies kept[a] < kept[b] by {
                if b < earlier.len() {
                    assert(earlier[a] < earlier[b]);
                } else {
                    assert(earlier[a] < count - 1);
                }
            }
            assert forall|a: int| 0 <= a < kept.len() implies #[trigger] kept[a] < count by {
                if a < earlier.len() {
                    assert(earlier[a] == kept[a]);
                }
            }
        } else {
            assert(kept =~= earlier);
            assert forall|i: usize|
                #[trigger] kept.contains(i) <==> (i < count && exists|j: int|
                    0 <= j < entry_ids.len() && entry_ids[j] == entry_ids[i as int] && admitted[j]) by {
                if i == last && exists|j: int|
                    0 <= j < entry_ids.len() && entry_ids[j] == entry_ids[i as int] && admitted[j] {
                    let j = choose|j: int|
                        0 <= j < entry_ids.len() && entry_ids[j] == entry_ids[i as int] && admitted[j];
                    assert(entry_ids[j] == entry_ids[count - 1]);
                    assert(entry_admitted(entry_ids, admitted, entry_ids[count - 1]));
                }
            }
        }
    }
}

/// An entry is admitted or refused whole: a path is kept exactly when some
/// path of its entry, before or after it, was admitted, and the kept indices
/// come in ascending order.
pub proof fn lemma_gate_keeps_whole_entries(entry_ids: Seq<usize>, admitted: Seq<bool>)
    requires
        entry_ids.len() == admitted.len(),
        entry_ids.len() <= usize::MAX,
    ensures
        ({
            let kept = gated_indices(entry_ids, admitted, entry_ids.len() as int);
            &&& forall|i: usize|
                #[trigger] kept.contains(i) <==> (i < entry_ids.len() && exists|j: int|
                    0 <= j < entry_ids.len() && entry_ids[j] == entry_ids[i as int] && admitted[j])
            &&& forall|a: int, b: int| 0 <= a < b < kept.len() ==> kept[a] < kept[b]
        }),
{
    lemma_gated_indices_prefix(entry_ids, admitted, entry_ids.len() as int);
}

/// Keeps every path, in order, whose entry has at least one admitted path:
/// an entry is judged by its best path, and then kept with all its paths.
pub fn gate_paths_by_entry(entry_ids: &[usize], admitted: &[bool]) -> (kept: Vec<usize>)
    requires
        entry_ids@.len() == admitted@.len(),
    ensures
        kept@ == gated_indices(entry_ids@, admitted@, entry_ids@.len() as int),
{
    let mut kept: Vec<usize> = Vec::new();
    let mut i: usize = 0;
    while i < entry_ids.len()
        invariant
            i <= entry_ids@.len(),
            entry_ids@.len() == admitted@.len(),
            kept@ == gated_indices(entry_ids@, admitted@, i as int),
        decreases entry_ids.len() - i,
    {
        let mut found = false;
        let mut j: usize = 0;
        while j < entry_ids.len()
            invariant
                i < entry_ids@.len(),
                j <= entry_ids@.len(),
                entry_ids@.len() == admitted@.len(),
                found <==> exists|k: int|
                    0 <= k < j && #[trigger] entry_ids@[k] == entry_ids@[i as int] && admitted@[k],
            decreases entry_ids.len() - j,
        {
            if entry_ids[j] == entry_ids[i] && admitted[j] {
                found = true;
            }
            j = j + 1;
        }
        if found {
            kept.push(i);
        }
        i = i + 1;
    }
    kept
}

} // verus!
