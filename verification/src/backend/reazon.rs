//! Decoding configuration and hotword tokenization of `ReazonSpeech` K2.
use vstd::prelude::*;
use crate::model::{str_table_view, AsrModel, AsrPrecision};
use crate::backend::{ReazonBeamAblation, ReazonBeamPruning, ReazonInitialContext, ReazonNetworkBatching};
use crate::backend::hotword_entries::{
    entries_paths, reports_paths, tokenize_hotword_entries, HotwordEntryError, HotwordTokenizer,
};
use crate::decoder::hotword::{
    hiragana_char_to_katakana, hiragana_to_katakana, HotwordEntry, HotwordPathKind, HotwordTokenPath,
};
use crate::decoder::rnnt::{
    first_occurrences, no_duplicates, StatelessRnntBeamConfig, StatelessRnntLengthNormalization,
    StatelessRnntPruning,
};
use crate::backend::token_table::{
    parse_token_table, reports, require_special_token, spec_parse_token_table, with_special_token,
    TokenSeparator, TokenTableError,
};
use crate::text::{chars_of, remove_whitespace, string_of, without_whitespace};

verus! {

pub const BLANK_ID: usize = 0;
pub const UNKNOWN_ID: usize = 5_222;
pub const SOS_EOS_ID: usize = 5_223;
pub const VOCAB_SIZE: usize = 5_224;

#[derive(Debug, Clone, Copy, PartialEq, Eq, Structural)]
pub enum ReazonDecodingStrategy {
    Greedy,
    ModifiedBeam { beam_size: usize },
    OneSpliceRerank { beam_size: usize, retained_candidates: usize },
    ModifiedBeamAblation { config: ReazonBeamAblation },
}

impl Default for ReazonDecodingStrategy {
    fn default() -> (r: Self)
        ensures
            r == ReazonDecodingStrategy::Greedy,
    {
        ReazonDecodingStrategy::Greedy
    }
}

/// Why a `ReazonSpeech` decoding strategy was refused.
#[derive(Debug, Clone, Copy, PartialEq, Eq, Structural)]
pub enum ReazonStrategyError {
    /// A beam strategy asked for width zero.
    ZeroBeamSize,
    /// One-splice reranking asked to retain no candidate.
    ZeroRetainedCandidates,
}

pub open spec fn has_zero_beam(decoding: ReazonDecodingStrategy) -> bool {
    match decoding {
        ReazonDecodingStrategy::ModifiedBeam { beam_size } => beam_size == 0,
        ReazonDecodingStrategy::OneSpliceRerank { beam_size, .. } => beam_size == 0,
        ReazonDecodingStrategy::ModifiedBeamAblation { config } => config.beam_size == 0,
        ReazonDecodingStrategy::Greedy => false,
    }
}

/// Refuses zero beam widths first, then a zero retained width.
pub fn validate_decoding_strategy(decoding: ReazonDecodingStrategy) -> (r: Result<(), ReazonStrategyError>)
    ensures
        has_zero_beam(decoding) ==> r == Err::<(), ReazonStrategyError>(ReazonStrategyError::ZeroBeamSize),
        !has_zero_beam(decoding) && (decoding matches ReazonDecodingStrategy::OneSpliceRerank {
            retained_candidates,
            ..
        } && retained_candidates == 0) ==> r == Err::<(), ReazonStrategyError>(
            ReazonStrategyError::ZeroRetainedCandidates,
        ),
        !has_zero_beam(decoding) && !(decoding matches ReazonDecodingStrategy::OneSpliceRerank {
            retained_candidates,
            ..
        } && retained_candidates == 0) ==> r is Ok,
{
    let zero_beam = match decoding {
        ReazonDecodingStrategy::ModifiedBeam { beam_size } => beam_size == 0,
        ReazonDecodingStrategy::OneSpliceRerank { beam_size, .. } => beam_size == 0,
        ReazonDecodingStrategy::ModifiedBeamAblation { config } => config.beam_size == 0,
        ReazonDecodingStrategy::Greedy => false,
    };
    if zero_beam {
        return Err(ReazonStrategyError::ZeroBeamSize);
    }
    if let ReazonDecodingStrategy::OneSpliceRerank { retained_candidates, .. } = decoding {
        if retained_candidates == 0 {
            return Err(ReazonStrategyError::ZeroRetainedCandidates);
        }
    }
    Ok(())
}

/// Which joiner output the decoder reads: raw logits, or log-probabilities
/// from a log-softmax appended to the joiner graph.
#[derive(Debug, Clone, Copy, PartialEq, Eq, Structural)]
pub enum ReazonJoinerOutput {
    Logit,
    LogProbability,
}

impl ReazonJoinerOutput {
    /// The output's name in the joiner graph.
    pub fn name(self) -> (r: &'static str)
        ensures
            r@ == match self {
                ReazonJoinerOutput::Logit => "logit"@,
                ReazonJoinerOutput::LogProbability => "log_probability"@,
            },
    {
        match self {
            ReazonJoinerOutput::Logit => "logit",
            ReazonJoinerOutput::LogProbability => "log_probability",
        }
    }
}

/// How a `ReazonSpeech` engine is put together for a decoding strategy.
#[derive(Debug, Clone, Copy, PartialEq, Eq, Structural)]
pub struct ReazonEnginePlan {
    /// Encoder threads.
    pub threads: usize,
    /// Every search but greedy reads log-probabilities.
    pub joiner_output: ReazonJoinerOutput,
    /// The modified beam and the one-splice reranker also read compact
    /// top-k and requested scores from the joiner.
    pub compact_output: bool,
    /// Only the one-splice reranker loads the static embedding.
    pub loads_static_embedding: bool,
}

/// Why a `ReazonSpeech` engine cannot be built.
#[derive(Debug, Clone, Copy, PartialEq, Eq, Structural)]
pub enum ReazonEngineError {
    /// The model is not `ReazonSpeech` K2 v2.
    UnsupportedModel,
    Strategy(ReazonStrategyError),
    /// The thread count is not positive.
    NoThreads,
}

impl ReazonEngineError {
    pub fn message(self) -> (r: &'static str)
        ensures
            r@ == match self {
                ReazonEngineError::UnsupportedModel => "direct ReazonSpeech backend does not support this model"@,
                ReazonEngineError::Strategy(ReazonStrategyError::ZeroBeamSize) => "ReazonSpeech beam size must be positive"@,
                ReazonEngineError::Strategy(ReazonStrategyError::ZeroRetainedCandidates) => "ReazonSpeech one-splice retained width must be positive"@,
                ReazonEngineError::NoThreads => "ASR thread count must be greater than zero"@,
            },
    {
        match self {
            ReazonEngineError::UnsupportedModel => "direct ReazonSpeech backend does not support this model",
            ReazonEngineError::Strategy(ReazonStrategyError::ZeroBeamSize) => "ReazonSpeech beam size must be positive",
            ReazonEngineError::Strategy(ReazonStrategyError::ZeroRetainedCandidates) => "ReazonSpeech one-splice retained width must be positive",
            ReazonEngineError::NoThreads => "ASR thread count must be greater than zero",
        }
    }
}

/// The engine plan of a strategy that passed the checks.
pub open spec fn spec_reazon_plan(threads: usize, decoding: ReazonDecodingStrategy) -> ReazonEnginePlan {
    ReazonEnginePlan {
        threads,
        joiner_output: if decoding is Greedy {
            ReazonJoinerOutput::Logit
        } else {
            ReazonJoinerOutput::LogProbability
        },
        compact_output: decoding is ModifiedBeam || decoding is OneSpliceRerank,
        loads_static_embedding: decoding is OneSpliceRerank,
    }
}

/// Checks the model, the strategy and the thread count, in this order, and
/// chooses the joiner variant and the resources a strategy needs.
pub fn plan_reazon_engine(model: AsrModel, num_threads: i32, decoding: ReazonDecodingStrategy) -> (r: Result<
    ReazonEnginePlan,
    ReazonEngineError,
>)
    ensures
        model != AsrModel::ReazonSpeechK2V2 ==> r == Err::<ReazonEnginePlan, ReazonEngineError>(
            ReazonEngineError::UnsupportedModel,
        ),
        model == AsrModel::ReazonSpeechK2V2 && has_zero_beam(decoding) ==> r == Err::<
            ReazonEnginePlan,
            ReazonEngineError,
        >(ReazonEngineError::Strategy(ReazonStrategyError::ZeroBeamSize)),
        model == AsrModel::ReazonSpeechK2V2 && !has_zero_beam(decoding) && (decoding matches ReazonDecodingStrategy::OneSpliceRerank {
            retained_candidates,
            ..
        } && retained_candidates == 0) ==> r == Err::<ReazonEnginePlan, ReazonEngineError>(
            ReazonEngineError::Strategy(ReazonStrategyError::ZeroRetainedCandidates),
        ),
        model == AsrModel::ReazonSpeechK2V2 && !has_zero_beam(decoding) && !(decoding matches ReazonDecodingStrategy::OneSpliceRerank {
            retained_candidates,
            ..
        } && retained_candidates == 0) ==> r == if num_threads > 0 {
            Ok::<ReazonEnginePlan, ReazonEngineError>(spec_reazon_plan(num_threads as usize, decoding))
        } else {
            Err(ReazonEngineError::NoThreads)
        },
{
    if model != AsrModel::ReazonSpeechK2V2 {
        return Err(ReazonEngineError::UnsupportedModel);
    }
    match validate_decoding_strategy(decoding) {
        Ok(()) => {},
        Err(e) => {
            return Err(ReazonEngineError::Strategy(e));
        },
    }
    if num_threads <= 0 {
        return Err(ReazonEngineError::NoThreads);
    }
    let greedy = match decoding {
        ReazonDecodingStrategy::Greedy => true,
        _ => false,
    };
    let compact_output = match decoding {
        ReazonDecodingStrategy::ModifiedBeam { .. } | ReazonDecodingStrategy::OneSpliceRerank { .. } => true,
        _ => false,
    };
    let loads_static_embedding = match decoding {
        ReazonDecodingStrategy::OneSpliceRerank { .. } => true,
        _ => false,
    };
    Ok(ReazonEnginePlan {
        threads: num_threads as usize,
        joiner_output: if greedy {
            ReazonJoinerOutput::Logit
        } else {
            ReazonJoinerOutput::LogProbability
        },
        compact_output,
        loads_static_embedding,
    })
}

/// The stateless RNN-T search configuration of an ablation.
pub fn ablation_decoder_config(config: ReazonBeamAblation) -> (r: StatelessRnntBeamConfig)
    ensures
        r.beam_size == config.beam_size,
        r.initial_context == (match config.initial_context {
            ReazonInitialContext::ModelReference => [0i64, 0i64],
            ReazonInitialContext::Sherpa => [-1i64, 0i64],
        }),
        r.additional_non_emitting_id == (if config.unknown_is_non_emitting {
            Some(UNKNOWN_ID)
        } else {
            None
        }),
        r.pruning == (match config.pruning {
            ReazonBeamPruning::StateDominance => StatelessRnntPruning::StateDominance,
            ReazonBeamPruning::FullPrefix => StatelessRnntPruning::FullPrefix,
            ReazonBeamPruning::Sherpa => StatelessRnntPruning::Sherpa,
        }),
        r.deduplicate_contexts == (config.network_batching == ReazonNetworkBatching::CachedUnique),
        r.search_length_normalization == StatelessRnntLengthNormalization::Raw,
        r.final_length_normalization == StatelessRnntLengthNormalization::PerToken,
{
    StatelessRnntBeamConfig {
        beam_size: config.beam_size,
        initial_context: match config.initial_context {
            ReazonInitialContext::ModelReference => [BLANK_ID as i64, BLANK_ID as i64],
            ReazonInitialContext::Sherpa => [-1, BLANK_ID as i64],
        },
        additional_non_emitting_id: if config.unknown_is_non_emitting {
            Some(UNKNOWN_ID)
        } else {
            None
        },
        pruning: match config.pruning {
            ReazonBeamPruning::StateDominance => StatelessRnntPruning::StateDominance,
            ReazonBeamPruning::FullPrefix => StatelessRnntPruning::FullPrefix,
            ReazonBeamPruning::Sherpa => StatelessRnntPruning::Sherpa,
        },
        deduplicate_contexts: match config.network_batching {
            ReazonNetworkBatching::CachedUnique => true,
            ReazonNetworkBatching::Sherpa => false,
        },
        search_length_normalization: StatelessRnntLengthNormalization::Raw,
        final_length_normalization: StatelessRnntLengthNormalization::PerToken,
    }
}

pub open spec fn spec_required_model_file_names(precision: AsrPrecision) -> Seq<Seq<char>> {
    match precision {
        AsrPrecision::Int8 => seq![
            "encoder-epoch-99-avg-1.int8.onnx"@,
            "decoder-epoch-99-avg-1.int8.onnx"@,
            "joiner-epoch-99-avg-1.int8.onnx"@,
            "tokens.txt"@,
        ],
        AsrPrecision::Int8Float32 => seq![
            "encoder-epoch-99-avg-1.int8.onnx"@,
            "decoder-epoch-99-avg-1.onnx"@,
            "joiner-epoch-99-avg-1.int8.onnx"@,
            "tokens.txt"@,
        ],
        AsrPrecision::Float32 => seq![
            "encoder-epoch-99-avg-1.onnx"@,
            "decoder-epoch-99-avg-1.onnx"@,
            "joiner-epoch-99-avg-1.onnx"@,
            "tokens.txt"@,
        ],
    }
}

/// The encoder, decoder, joiner and token files of one precision.
pub fn required_model_file_names(precision: AsrPrecision) -> (r: &'static [&'static str])
    ensures
        str_table_view(r) == spec_required_model_file_names(precision),
{
    match precision {
        AsrPrecision::Int8 => {
            let r: &'static [&'static str] = &[
                "encoder-epoch-99-avg-1.int8.onnx",
                "decoder-epoch-99-avg-1.int8.onnx",
                "joiner-epoch-99-avg-1.int8.onnx",
                "tokens.txt",
            ];
            assert(str_table_view(r) =~= spec_required_model_file_names(precision));
            r
        },
        AsrPrecision::Int8Float32 => {
            let r: &'static [&'static str] = &[
                "encoder-epoch-99-avg-1.int8.onnx",
                "decoder-epoch-99-avg-1.onnx",
                "joiner-epoch-99-avg-1.int8.onnx",
                "tokens.txt",
            ];
            assert(str_table_view(r) =~= spec_required_model_file_names(precision));
            r
        },
        AsrPrecision::Float32 => {
            let r: &'static [&'static str] = &[
                "encoder-epoch-99-avg-1.onnx",
                "decoder-epoch-99-avg-1.onnx",
                "joiner-epoch-99-avg-1.onnx",
                "tokens.txt",
            ];
            assert(str_table_view(r) =~= spec_required_model_file_names(precision));
            r
        },
    }
}

/// The encoder, decoder and joiner file names of one precision.
pub fn model_files(precision: AsrPrecision) -> (r: (&'static str, &'static str, &'static str))
    ensures
        r.0@ == spec_required_model_file_names(precision)[0],
        r.1@ == spec_required_model_file_names(precision)[1],
        r.2@ == spec_required_model_file_names(precision)[2],
{
    let files = required_model_file_names(precision);
    proof {
        assert(spec_required_model_file_names(precision).len() == 4);
        assert(str_table_view(files).len() == files@.len());
        assert(str_table_view(files)[0] == files@[0]@);
        assert(str_table_view(files)[1] == files@[1]@);
        assert(str_table_view(files)[2] == files@[2]@);
    }
    (files[0], files[1], files[2])
}

/// The token table of `ReazonSpeech`: one line per id below the vocabulary
/// size, token and id split at the last tab (or space), with the blank,
/// unknown and sentence-boundary tokens in their fixed slots.
pub open spec fn spec_parse_tokens(text: Seq<char>) -> Result<Seq<Seq<char>>, TokenTableError> {
    with_special_token(
        with_special_token(
            with_special_token(
                spec_parse_token_table(text, VOCAB_SIZE as nat, TokenSeparator::TabOrSpace),
                BLANK_ID,
                "<blk>"@,
            ),
            UNKNOWN_ID,
            "<unk>"@,
        ),
        SOS_EOS_ID,
        "<sos/eos>"@,
    )
}

pub fn parse_tokens(contents: &str) -> (r: Result<Vec<String>, TokenTableError>)
    ensures
        reports(r, spec_parse_tokens(contents@)),
{
    let parsed = parse_token_table(contents, VOCAB_SIZE, TokenSeparator::TabOrSpace);
    let ghost outcome = spec_parse_token_table(contents@, VOCAB_SIZE as nat, TokenSeparator::TabOrSpace);
    assert(reports(parsed, outcome));
    let with_blank = require_special_token(parsed, BLANK_ID, "<blk>");
    let ghost outcome = with_special_token(outcome, BLANK_ID, "<blk>"@);
    assert(reports(with_blank, outcome));
    let with_unknown = require_special_token(with_blank, UNKNOWN_ID, "<unk>");
    let ghost outcome = with_special_token(outcome, UNKNOWN_ID, "<unk>"@);
    assert(reports(with_unknown, outcome));
    require_special_token(with_unknown, SOS_EOS_ID, "<sos/eos>")
}

/// Distinct decoder contexts and the row of each input context; identical
/// predictor pairs share one joiner row.
pub fn unique_context_layout(contexts: &[[i64; 2]]) -> (r: (Vec<[i64; 2]>, Vec<usize>))
    ensures
        r.0@ == first_occurrences(contexts@),
        no_duplicates(r.0@),
        r.1.len() == contexts.len(),
        forall|i: int|
            0 <= i < contexts.len() ==> (#[trigger] r.1@[i]) < r.0.len() && r.0@[r.1@[i] as int]
                == contexts@[i],
{
    crate::decoder::rnnt::unique_context_layout(contexts)
}

pub open spec fn spec_to_katakana(text: Seq<char>) -> Seq<char> {
    text.map_values(|c: char| hiragana_to_katakana(c))
}

/// Rewrites hiragana letters as katakana.
pub fn to_katakana(text: &str) -> (r: String)
    ensures
        r@ == spec_to_katakana(text@),
{
    let chars = chars_of(text);
    let mut out: Vec<char> = Vec::new();
    let mut index: usize = 0;
    while index < chars.len()
        invariant
            index <= chars.len(),
            out@ == chars@.take(index as int).map_values(|c: char| hiragana_to_katakana(c)),
        decreases chars.len() - index,
    {
        let c = hiragana_char_to_katakana(chars[index]);
        out.push(c);
        assert(chars@.take(index + 1).map_values(|c: char| hiragana_to_katakana(c))
            =~= chars@.take(index as int).map_values(|c: char| hiragana_to_katakana(c)).push(c));
        index = index + 1;
    }
    assert(chars@.take(chars.len() as int) =~= chars@);
    string_of(&out)
}

/// Why hotword text could not be turned into model tokens.
#[derive(Debug, Clone, Copy, PartialEq, Eq, Structural)]
pub enum HotwordTextError {
    /// Nothing but whitespace.
    Empty { kind: HotwordPathKind },
    /// A character has no single-character token.
    OutOfVocabulary { kind: HotwordPathKind, character: char },
    /// No segmentation into vocabulary pieces exists.
    Unsegmentable { kind: HotwordPathKind },
}

/// Whether token `id` is the one-character piece `c`.
pub open spec fn is_char_token(vocabulary: Seq<String>, id: int, c: char) -> bool {
    0 <= id < vocabulary.len() && vocabulary[id]@ == seq![c]
}

/// The id of the single-character token `c`: the last such id, as a map built
/// from the vocabulary in id order keeps it.
pub open spec fn char_token_id(vocabulary: Seq<String>, c: char) -> Option<usize> {
    if exists|id: int| is_char_token(vocabulary, id, c) {
        Some(
            (choose|id: int|
                is_char_token(vocabulary, id, c) && forall|other: int|
                    is_char_token(vocabulary, other, c) ==> other <= id) as usize,
        )
    } else {
        None
    }
}

/// Whether the string `s` is exactly the one character `c`.
pub fn is_single_char(s: &String, c: char) -> (r: bool)
    ensures
        r == (s@ == seq![c]),
{
    let chars = chars_of(s.as_str());
    let r = chars.len() == 1 && chars[0] == c;
    proof {
        if chars.len() == 1 && chars[0] == c {
            assert(chars@ =~= seq![c]);
        }
    }
    r
}

/// Looks up the single-character token of `c`.
pub fn lookup_char_token(vocabulary: &[String], c: char) -> (r: Option<usize>)
    ensures
        r == char_token_id(vocabulary@, c),
{
    let mut found: Option<usize> = None;
    let mut id: usize = 0;
    while id < vocabulary.len()
        invariant
            id <= vocabulary.len(),
            found is None ==> forall|j: int| 0 <= j < id ==> !is_char_token(vocabulary@, j, c),
            found is Some ==> found->0 < id && is_char_token(vocabulary@, found->0 as int, c)
                && forall|j: int| found->0 < j < id ==> !is_char_token(vocabulary@, j, c),
        decreases vocabulary.len() - id,
    {
        if is_single_char(&vocabulary[id], c) {
            found = Some(id);
        }
        id = id + 1;
    }
    proof {
        match found {
            Some(best) => {
                assert(is_char_token(vocabulary@, best as int, c));
                let chosen = choose|k: int|
                    is_char_token(vocabulary@, k, c) && forall|other: int|
                        is_char_token(vocabulary@, other, c) ==> other <= k;
                assert(is_char_token(vocabulary@, best as int, c) && forall|other: int|
                    is_char_token(vocabulary@, other, c) ==> other <= best as int);
                assert(chosen <= best as int && best as int <= chosen);
            },
            None => {},
        }
    }
    found
}

/// Index of the first character that has no token, if any.
pub open spec fn first_unknown_char(vocabulary: Seq<String>, chars: Seq<char>, i: int) -> bool {
    0 <= i < chars.len() && char_token_id(vocabulary, chars[i]) is None && forall|j: int|
        0 <= j < i ==> char_token_id(vocabulary, chars[j]) is Some
}

/// One token per non-whitespace character, or why that is impossible.
pub open spec fn spec_tokenize_reazon_hotword_text(
    text: Seq<char>,
    vocabulary: Seq<String>,
    kind: HotwordPathKind,
) -> Result<Seq<usize>, HotwordTextError> {
    let chars = without_whitespace(text);
    if exists|i: int| first_unknown_char(vocabulary, chars, i) {
        let i = choose|i: int| first_unknown_char(vocabulary, chars, i);
        Err(HotwordTextError::OutOfVocabulary { kind, character: chars[i] })
    } else if chars.len() == 0 {
        Err(HotwordTextError::Empty { kind })
    } else {
        Ok(chars.map_values(|c: char| char_token_id(vocabulary, c).unwrap()))
    }
}

/// Maps every non-whitespace character of a hotword to its one-character
/// `ReazonSpeech` token.
pub fn tokenize_reazon_hotword_text(
    text: &str,
    vocabulary: &[String],
    kind: HotwordPathKind,
) -> (r: Result<Vec<usize>, HotwordTextError>)
    ensures
        match spec_tokenize_reazon_hotword_text(text@, vocabulary@, kind) {
            Ok(tokens) => r is Ok && r->Ok_0@ == tokens,
            Err(e) => r == Err::<Vec<usize>, HotwordTextError>(e),
        },
{
    let all = chars_of(text);
    let chars = remove_whitespace(&all);
    let mut tokens: Vec<usize> = Vec::new();
    let mut index: usize = 0;
    while index < chars.len()
        invariant
            chars@ == without_whitespace(text@),
            index <= chars.len(),
            tokens@ == chars@.take(index as int).map_values(|c: char| char_token_id(vocabulary@, c).unwrap()),
            forall|j: int| 0 <= j < index ==> char_token_id(vocabulary@, chars@[j]) is Some,
        decreases chars.len() - index,
    {
        match lookup_char_token(vocabulary, chars[index]) {
            Some(id) => {
                tokens.push(id);
                assert(chars@.take(index + 1).map_values(|c: char| char_token_id(vocabulary@, c).unwrap())
                    =~= chars@.take(index as int).map_values(|c: char| char_token_id(vocabulary@, c).unwrap()).push(id));
            },
            None => {
                proof {
                    assert(first_unknown_char(vocabulary@, chars@, index as int));
                    let i = choose|i: int| first_unknown_char(vocabulary@, chars@, i);
                    if i < index {
                    } else if i > index {
                        assert(char_token_id(vocabulary@, chars@[index as int]) is Some);
                    }
                }
                return Err(HotwordTextError::OutOfVocabulary { kind, character: chars[index] });
            },
        }
        index = index + 1;
    }
    proof {
        assert(!exists|i: int| first_unknown_char(vocabulary@, chars@, i));
        assert(chars@.take(chars.len() as int) =~= chars@);
    }
    if tokens.len() == 0 {
        return Err(HotwordTextError::Empty { kind });
    }
    Ok(tokens)
}

/// The token paths of registered hotwords: one path per surface and per
/// hiragana and katakana form of each reading.
pub fn tokenize_reazon_hotword_entries(
    entries: &[HotwordEntry],
    vocabulary: &[String],
) -> (r: Result<Vec<HotwordTokenPath>, HotwordEntryError>)
    ensures
        reports_paths(
            r,
            entries_paths(HotwordTokenizer::Reazon, entries@, entries@.len() as int, vocabulary@),
        ),
{
    tokenize_hotword_entries(HotwordTokenizer::Reazon, entries, vocabulary)
}

} // verus!
