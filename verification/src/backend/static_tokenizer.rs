//! The Unigram tokenizer of the Japanese static embedding: what its
//! `tokenizer.json` must hold, which pieces it registers, and how text is
//! normalized before the piece search. Piece scores are floating point and
//! stay with the caller.
use vstd::prelude::*;
use crate::decoder::hotword::{nfkc_chars, unicode_nfkc};
use crate::text::{char_is_whitespace, chars_of, is_unicode_whitespace};
use serde_json::Value;

verus! {

/// One value of a vocabulary entry array: its text when it is a string, and
/// whether it reads as a number.
#[derive(Debug, Clone, PartialEq)]
pub struct JsonScalar {
    pub text: Option<String>,
    pub numeric: bool,
}

/// What the `model` object of a `tokenizer.json` holds: its `type` when it
/// is a string, `byte_fallback` when it is a boolean, `unk_id` when it is an
/// unsigned integer, and `vocab` when it is an array, each entry given by its
/// values when it is an array itself.
#[derive(Debug, Clone, PartialEq)]
pub struct UnigramModelHeader {
    pub model_type: Option<String>,
    pub byte_fallback: Option<bool>,
    pub unk_id: Option<u64>,
    pub vocab: Option<Vec<Option<Vec<JsonScalar>>>>,
}

/// A string, if any, as its characters.
pub open spec fn text_view(text: Option<String>) -> Option<Seq<char>> {
    match text {
        Some(s) => Some(s@),
        None => None,
    }
}

pub open spec fn scalar_view(value: JsonScalar) -> (Option<Seq<char>>, bool) {
    (text_view(value.text), value.numeric)
}

pub open spec fn entry_view(entry: Option<Vec<JsonScalar>>) -> Option<Seq<(Option<Seq<char>>, bool)>> {
    match entry {
        Some(values) => Some(values@.map_values(|v: JsonScalar| scalar_view(v))),
        None => None,
    }
}

pub open spec fn vocab_view(vocab: Seq<Option<Vec<JsonScalar>>>) -> Seq<Option<Seq<(Option<Seq<char>>, bool)>>> {
    vocab.map_values(|e: Option<Vec<JsonScalar>>| entry_view(e))
}

/// A decoded `model` object as plain values.
pub open spec fn unigram_model_view(model: UnigramModelHeader) -> (
    Option<Seq<char>>,
    Option<bool>,
    Option<u64>,
    Option<Seq<Option<Seq<(Option<Seq<char>>, bool)>>>>,
) {
    (
        text_view(model.model_type),
        model.byte_fallback,
        model.unk_id,
        match model.vocab {
            Some(v) => Some(vocab_view(v@)),
            None => None,
        },
    )
}

/// What `serde_json` decodes from the bytes of a `tokenizer.json`, as far as
/// its `model` object goes: nothing when the bytes are not JSON, `Some(None)`
/// when there is no `model`.
pub uninterp spec fn json_unigram_model(bytes: Seq<u8>) -> Option<
    Option<(
        Option<Seq<char>>,
        Option<bool>,
        Option<u64>,
        Option<Seq<Option<Seq<(Option<Seq<char>>, bool)>>>>,
    )>,
>;

/// Decodes `tokenizer.json` with `serde_json::from_slice` into a
/// `serde_json::Value` and reads its `model` object with `Value::get`,
/// `as_str`, `as_bool`, `as_u64` and `as_array`; a vocabulary value counts as
/// numeric when `Value::is_number` holds of it, which is when `Value::as_f64`
/// reads it. Trusted: the result is only named
/// (`json_unigram_model` of the bytes); what JSON decodes to what is left to
/// `serde_json`.
#[verifier::external_body]
fn decode_unigram_model(bytes: &[u8]) -> (r: Option<Option<UnigramModelHeader>>)
    ensures
        match r {
            None => json_unigram_model(bytes@) is None,
            Some(None) => json_unigram_model(bytes@) is Some && json_unigram_model(bytes@)->0 is None,
            Some(Some(m)) => json_unigram_model(bytes@) == Some(Some(unigram_model_view(m))),
        },
{
    let document: Value = serde_json::from_slice(bytes).ok()?;
    let Some(model) = document.get("model") else { return Some(None) };
    let scalar = |v: &Value| JsonScalar { text: v.as_str().map(str::to_owned), numeric: v.is_number() };
    Some(Some(UnigramModelHeader {
        model_type: model.get("type").and_then(Value::as_str).map(str::to_owned),
        byte_fallback: model.get("byte_fallback").and_then(Value::as_bool),
        unk_id: model.get("unk_id").and_then(Value::as_u64),
        vocab: model.get("vocab").and_then(Value::as_array).map(|entries| entries.iter().map(|e| e.as_array().map(|values| values.iter().map(scalar).collect())).collect()),
    }))
}

/// Why a static-embedding `tokenizer.json` is refused.
#[derive(Debug, Clone, Copy, PartialEq, Eq, Structural)]
pub enum StaticTokenizerError {
    NotJson,
    NoModel,
    /// The model is not a Unigram model, or falls back to bytes.
    NotUnigram,
    InvalidUnknownId,
    NoVocabulary,
    /// A vocabulary entry is not an array of two values.
    InvalidEntry,
    PieceNotText,
    ScoreNotNumeric,
}

pub open spec fn static_tokenizer_error_text(e: StaticTokenizerError) -> Seq<char> {
    match e {
        StaticTokenizerError::NotJson => "failed to parse static tokenizer.json"@,
        StaticTokenizerError::NoModel => "static tokenizer has no model"@,
        StaticTokenizerError::NotUnigram => "static tokenizer must be a non-byte-fallback Unigram model"@,
        StaticTokenizerError::InvalidUnknownId => "static tokenizer has no valid unk_id"@,
        StaticTokenizerError::NoVocabulary => "static tokenizer has no vocabulary"@,
        StaticTokenizerError::InvalidEntry => "static tokenizer vocabulary entry is invalid"@,
        StaticTokenizerError::PieceNotText => "static tokenizer piece is not text"@,
        StaticTokenizerError::ScoreNotNumeric => "static tokenizer score is not numeric"@,
    }
}

impl StaticTokenizerError {
    pub fn message(self) -> (r: &'static str)
        ensures
            r@ == static_tokenizer_error_text(self),
    {
        match self {
            StaticTokenizerError::NotJson => "failed to parse static tokenizer.json",
            StaticTokenizerError::NoModel => "static tokenizer has no model",
            StaticTokenizerError::NotUnigram => "static tokenizer must be a non-byte-fallback Unigram model",
            StaticTokenizerError::InvalidUnknownId => "static tokenizer has no valid unk_id",
            StaticTokenizerError::NoVocabulary => "static tokenizer has no vocabulary",
            StaticTokenizerError::InvalidEntry => "static tokenizer vocabulary entry is invalid",
            StaticTokenizerError::PieceNotText => "static tokenizer piece is not text",
            StaticTokenizerError::ScoreNotNumeric => "static tokenizer score is not numeric",
        }
    }
}

/// What is wrong with one vocabulary entry: it must be a piece of text and a
/// number.
pub open spec fn spec_entry_error(entry: Option<Seq<(Option<Seq<char>>, bool)>>) -> Option<StaticTokenizerError> {
    match entry {
        None => Some(StaticTokenizerError::InvalidEntry),
        Some(values) => if values.len() != 2 {
            Some(StaticTokenizerError::InvalidEntry)
        } else if values[0].0 is None {
            Some(StaticTokenizerError::PieceNotText)
        } else if !values[1].1 {
            Some(StaticTokenizerError::ScoreNotNumeric)
        } else {
            None
        },
    }
}

/// The error of the first invalid entry among the first `count`.
pub open spec fn first_entry_error(vocab: Seq<Option<Seq<(Option<Seq<char>>, bool)>>>, count: int) -> Option<
    StaticTokenizerError,
>
    decreases count,
{
    if count <= 0 {
        None
    } else {
        match first_entry_error(vocab, count - 1) {
            Some(e) => Some(e),
            None => spec_entry_error(vocab[count - 1]),
        }
    }
}

/// The pieces registered from the first `count` (valid) entries: those after
/// the unknown token with non-empty text, with their token ids.
pub open spec fn kept_pieces(vocab: Seq<Option<Seq<(Option<Seq<char>>, bool)>>>, unknown_id: usize, count: int) -> Seq<
    (usize, Seq<char>),
>
    decreases count,
{
    if count <= 0 {
        Seq::empty()
    } else {
        let earlier = kept_pieces(vocab, unknown_id, count - 1);
        let piece = vocab[count - 1]->0[0].0->0;
        if count - 1 > unknown_id && piece.len() > 0 {
            earlier.push(((count - 1) as usize, piece))
        } else {
            earlier
        }
    }
}

/// The unknown token id and the registered pieces of a decoded `model`
/// object, or why it is refused, checked in this order.
pub open spec fn spec_unigram_vocabulary(
    model: (
        Option<Seq<char>>,
        Option<bool>,
        Option<u64>,
        Option<Seq<Option<Seq<(Option<Seq<char>>, bool)>>>>,
    ),
) -> Result<(usize, Seq<(usize, Seq<char>)>), StaticTokenizerError> {
    let (model_type, byte_fallback, unk_id, vocab) = model;
    if model_type != Some(seq!['U', 'n', 'i', 'g', 'r', 'a', 'm']) || byte_fallback == Some(true) {
        Err(StaticTokenizerError::NotUnigram)
    } else if unk_id is None || unk_id->0 > usize::MAX {
        Err(StaticTokenizerError::InvalidUnknownId)
    } else if vocab is None {
        Err(StaticTokenizerError::NoVocabulary)
    } else {
        match first_entry_error(vocab->0, vocab->0.len() as int) {
            Some(e) => Err(e),
            None => Ok((unk_id->0 as usize, kept_pieces(vocab->0, unk_id->0 as usize, vocab->0.len() as int))),
        }
    }
}

/// What a `tokenizer.json` gives the static embedding, or why it is refused.
pub open spec fn spec_check_unigram_tokenizer(bytes: Seq<u8>) -> Result<
    (usize, Seq<(usize, Seq<char>)>),
    StaticTokenizerError,
> {
    match json_unigram_model(bytes) {
        None => Err(StaticTokenizerError::NotJson),
        Some(None) => Err(StaticTokenizerError::NoModel),
        Some(Some(model)) => spec_unigram_vocabulary(model),
    }
}

/// The unknown token and the registered pieces of a Unigram tokenizer.
#[derive(Debug, Clone, PartialEq)]
pub struct UnigramVocabulary {
    pub unknown_id: usize,
    /// Token ids with their piece texts, in vocabulary order.
    pub pieces: Vec<(usize, String)>,
}

pub open spec fn pieces_view(pieces: Seq<(usize, String)>) -> Seq<(usize, Seq<char>)> {
    pieces.map_values(|p: (usize, String)| (p.0, p.1@))
}

proof fn lemma_first_entry_error_stays(
    vocab: Seq<Option<Seq<(Option<Seq<char>>, bool)>>>,
    from: int,
    to: int,
)
    requires
        0 <= from <= to,
        first_entry_error(vocab, from) is Some,
    ensures
        first_entry_error(vocab, to) == first_entry_error(vocab, from),
    decreases to - from,
{
    if from < to {
        lemma_first_entry_error_stays(vocab, from, to - 1);
    }
}

fn is_unigram_type(model_type: &Option<String>) -> (r: bool)
    ensures
        r == (text_view(*model_type) == Some(seq!['U', 'n', 'i', 'g', 'r', 'a', 'm'])),
{
    match model_type {
        Some(text) => {
            let c = chars_of(text.as_str());
            let r = c.len() == 7 && c[0] == 'U' && c[1] == 'n' && c[2] == 'i' && c[3] == 'g' && c[4] == 'r'
                && c[5] == 'a' && c[6] == 'm';
            proof {
                if r {
                    assert(c@ =~= seq!['U', 'n', 'i', 'g', 'r', 'a', 'm']);
                }
            }
            r
        },
        None => false,
    }
}

/// Checks the decoded `model` object of a static-embedding tokenizer and
/// collects the pieces it registers.
pub fn unigram_vocabulary(model: &UnigramModelHeader) -> (r: Result<UnigramVocabulary, StaticTokenizerError>)
    ensures
        match r {
            Ok(v) => spec_unigram_vocabulary(unigram_model_view(*model)) == Ok::<
                (usize, Seq<(usize, Seq<char>)>),
                StaticTokenizerError,
            >((v.unknown_id, pieces_view(v.pieces@))),
            Err(e) => spec_unigram_vocabulary(unigram_model_view(*model)) == Err::<
                (usize, Seq<(usize, Seq<char>)>),
                StaticTokenizerError,
            >(e),
        },
{
    let falls_back = match model.byte_fallback {
        Some(b) => b,
        None => false,
    };
    if !is_unigram_type(&model.model_type) || falls_back {
        return Err(StaticTokenizerError::NotUnigram);
    }
    let unknown_id: usize = match model.unk_id {
        Some(id) => if id <= usize::MAX as u64 {
            id as usize
        } else {
            return Err(StaticTokenizerError::InvalidUnknownId);
        },
        None => {
            return Err(StaticTokenizerError::InvalidUnknownId);
        },
    };
    let vocab = match &model.vocab {
        Some(v) => v,
        None => {
            return Err(StaticTokenizerError::NoVocabulary);
        },
    };
    let ghost view = vocab_view(vocab@);
    proof {
        assert(unigram_model_view(*model).3 == Some(view));
        assert(spec_unigram_vocabulary(unigram_model_view(*model)) == match first_entry_error(view, view.len() as int) {
            Some(e) => Err(e),
            None => Ok((unknown_id, kept_pieces(view, unknown_id, view.len() as int))),
        });
    }
    let mut pieces: Vec<(usize, String)> = Vec::new();
    let mut i: usize = 0;
    while i < vocab.len()
        invariant
            i <= vocab@.len(),
            view == vocab_view(vocab@),
            view.len() == vocab@.len(),
            spec_unigram_vocabulary(unigram_model_view(*model)) == match first_entry_error(view, view.len() as int) {
                Some(e) => Err(e),
                None => Ok((unknown_id, kept_pieces(view, unknown_id, view.len() as int))),
            },
            first_entry_error(view, i as int) is None,
            pieces_view(pieces@) == kept_pieces(view, unknown_id, i as int),
        decreases vocab.len() - i,
    {
        proof {
            assert(view[i as int] == entry_view(vocab@[i as int]));
        }
        let values = match &vocab[i] {
            Some(values) => values,
            None => {
                proof {
                    assert(view[i as int] is None);
                    assert(first_entry_error(view, i + 1) == Some(StaticTokenizerError::InvalidEntry));
                    lemma_first_entry_error_stays(view, i + 1, view.len() as int);
                }
                return Err(StaticTokenizerError::InvalidEntry);
            },
        };
        if values.len() != 2 {
            proof {
                assert(view[i as int]->0.len() == values@.len());
                assert(first_entry_error(view, i + 1) == Some(StaticTokenizerError::InvalidEntry));
                lemma_first_entry_error_stays(view, i + 1, view.len() as int);
            }
            return Err(StaticTokenizerError::InvalidEntry);
        }
        proof {
            assert(view[i as int]->0[0] == scalar_view(values@[0]));
            assert(view[i as int]->0[1] == scalar_view(values@[1]));
        }
        let piece = match &values[0].text {
            Some(piece) => piece,
            None => {
                proof {
                    lemma_first_entry_error_stays(view, i + 1, view.len() as int);
                }
                return Err(StaticTokenizerError::PieceNotText);
            },
        };
        if !values[1].numeric {
            proof {
                lemma_first_entry_error_stays(view, i + 1, view.len() as int);
            }
            return Err(StaticTokenizerError::ScoreNotNumeric);
        }
        let length = chars_of(piece.as_str()).len();
        let ghost before = pieces@;
        if i > unknown_id && length > 0 {
            let copy = piece.clone();
            pieces.push((i, copy));
            proof {
                assert(pieces@ == before.push((i, copy)));
                assert(pieces_view(pieces@) =~= pieces_view(before).push((i, piece@)));
            }
        }
        i = i + 1;
    }
    Ok(UnigramVocabulary { unknown_id, pieces })
}


/// Checks the bytes of a static-embedding `tokenizer.json` and collects the
/// pieces its Unigram model registers.
pub fn check_unigram_tokenizer(bytes: &[u8]) -> (r: Result<UnigramVocabulary, StaticTokenizerError>)
    ensures
        match r {
            Ok(v) => spec_check_unigram_tokenizer(bytes@) == Ok::<
                (usize, Seq<(usize, Seq<char>)>),
                StaticTokenizerError,
            >((v.unknown_id, pieces_view(v.pieces@))),
            Err(e) => spec_check_unigram_tokenizer(bytes@) == Err::<
                (usize, Seq<(usize, Seq<char>)>),
                StaticTokenizerError,
            >(e),
        },
{
    match decode_unigram_model(bytes) {
        None => Err(StaticTokenizerError::NotJson),
        Some(None) => Err(StaticTokenizerError::NoModel),
        Some(Some(model)) => unigram_vocabulary(&model),
    }
}

/// The lowercase mapping of `c`, one or more characters.
pub uninterp spec fn char_lowercase(c: char) -> Seq<char>;

/// `char::to_lowercase`, collected into characters. Trusted: the result is
/// only named (`char_lowercase` of the argument).
#[verifier::external_body]
fn lowercase_chars(c: char) -> (r: Vec<char>)
    ensures
        r@ == char_lowercase(c),
{
    c.to_lowercase().collect()
}

/// A whitespace character read as the word-boundary marker `▁`.
pub open spec fn word_marked(c: char) -> char {
    if is_unicode_whitespace(c) {
        '\u{2581}'
    } else {
        c
    }
}

/// Lowercases every character and marks whitespace as `▁`.
pub open spec fn spec_unigram_normalize(s: Seq<char>) -> Seq<char>
    decreases s.len(),
{
    if s.len() == 0 {
        Seq::empty()
    } else {
        spec_unigram_normalize(s.drop_last()) + char_lowercase(s.last()).map_values(|c: char| word_marked(c))
    }
}

/// The characters the Unigram piece search runs over: a leading `▁`, then
/// the NFKC form of `text` lowercased, with whitespace read as `▁`.
pub fn unigram_normalized_chars(text: &str) -> (r: Vec<char>)
    ensures
        r@ == seq!['\u{2581}'] + spec_unigram_normalize(unicode_nfkc(text@)),
{
    let composed = nfkc_chars(text);
    let mut normalized: Vec<char> = Vec::new();
    normalized.push('\u{2581}');
    let mut i: usize = 0;
    while i < composed.len()
        invariant
            i <= composed@.len(),
            composed@ == unicode_nfkc(text@),
            normalized@ == seq!['\u{2581}'] + spec_unigram_normalize(composed@.take(i as int)),
        decreases composed.len() - i,
    {
        let lowered = lowercase_chars(composed[i]);
        let ghost before = normalized@;
        let mut k: usize = 0;
        while k < lowered.len()
            invariant
                k <= lowered@.len(),
                normalized@ == before + lowered@.take(k as int).map_values(|c: char| word_marked(c)),
            decreases lowered.len() - k,
        {
            let c = lowered[k];
            let marked = if char_is_whitespace(c) {
                '\u{2581}'
            } else {
                c
            };
            normalized.push(marked);
            proof {
                assert(lowered@.take(k + 1) =~= lowered@.take(k as int).push(c));
                assert(lowered@.take(k + 1).map_values(|c: char| word_marked(c)) =~= lowered@.take(
                    k as int,
                ).map_values(|c: char| word_marked(c)).push(word_marked(c)));
            }
            k = k + 1;
        }
        proof {
            assert(lowered@.take(lowered@.len() as int) =~= lowered@);
            assert(composed@.take(i + 1).drop_last() =~= composed@.take(i as int));
            assert(composed@.take(i + 1).last() == composed@[i as int]);
        }
        i = i + 1;
    }
    proof {
        assert(composed@.take(composed@.len() as int) =~= composed@);
    }
    normalized
}

} // verus!
