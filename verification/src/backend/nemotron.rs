//! Streaming contract and CJK detokenization of the NVIDIA Nemotron exports.
use vstd::prelude::*;
use crate::backend::token_table::{parse_blank_table, reports, spec_parse_blank_table, TokenTableError};
use crate::backend::UnsupportedModel;
use crate::model::{AsrLanguage, AsrModel};
use crate::text::{chars_of, concat_views, string_of};
use std::collections::HashMap;
use crate::transcript::{joined_chars, lemma_concat_prefix_len, lemma_concat_push, token_start};

verus! {

/// Encoder width of every Nemotron export.
pub const ENCODER_DIM: usize = 1_024;
/// Conformer layers that carry a streaming cache.
pub const CACHE_LAYERS: usize = 24;
/// Left attention context of the English exports, in encoder frames.
pub const ENGLISH_CACHE_CHANNEL_FRAMES: usize = 70;
/// Left attention context of the multilingual exports, in encoder frames.
pub const MULTILINGUAL_CACHE_CHANNEL_FRAMES: usize = 56;

/// Prompt ids read from a multilingual encoder's metadata.
#[derive(Debug, Clone, Copy, PartialEq, Eq, Structural)]
pub struct NemotronPromptIds {
    pub auto: i64,
    pub japanese: i64,
}

/// Window, shift, blank id and cache geometry of one Nemotron export.
#[derive(Debug, Clone, Copy, PartialEq, Eq, Structural)]
pub struct NemotronContract {
    pub window_frames: usize,
    pub shift_frames: usize,
    pub blank_id: usize,
    pub cache_channel_frames: usize,
    pub prompt_ids: Option<NemotronPromptIds>,
}

/// Encoder window and chunk shift of each latency, in frames; `None` for a
/// model outside the Nemotron family.
pub open spec fn nemotron_window(model: AsrModel) -> Option<(usize, usize)> {
    match model {
        AsrModel::NemotronSpeechStreamingEn0_6B80MsInt8
        | AsrModel::Nemotron3_5AsrStreaming0_6B80MsInt8 => Some((17usize, 8usize)),
        AsrModel::NemotronSpeechStreamingEn0_6B160MsInt8
        | AsrModel::Nemotron3_5AsrStreaming0_6B160MsInt8 => Some((25usize, 16usize)),
        AsrModel::NemotronSpeechStreamingEn0_6B320MsInt8
        | AsrModel::Nemotron3_5AsrStreaming0_6B320MsInt8 => Some((41usize, 32usize)),
        AsrModel::NemotronSpeechStreamingEn0_6B560MsInt8
        | AsrModel::Nemotron3_5AsrStreaming0_6B560MsInt8 => Some((65usize, 56usize)),
        AsrModel::NemotronSpeechStreamingEn0_6B1120MsInt8
        | AsrModel::Nemotron3_5AsrStreaming0_6B1120MsInt8 => Some((121usize, 112usize)),
        _ => None,
    }
}

/// The multilingual Nemotron 3.5 exports, which take a language prompt.
pub open spec fn is_multilingual_nemotron(model: AsrModel) -> bool {
    match model {
        AsrModel::Nemotron3_5AsrStreaming0_6B80MsInt8
        | AsrModel::Nemotron3_5AsrStreaming0_6B160MsInt8
        | AsrModel::Nemotron3_5AsrStreaming0_6B320MsInt8
        | AsrModel::Nemotron3_5AsrStreaming0_6B560MsInt8
        | AsrModel::Nemotron3_5AsrStreaming0_6B1120MsInt8 => true,
        _ => false,
    }
}

pub open spec fn spec_for_model(model: AsrModel) -> Result<NemotronContract, UnsupportedModel> {
    match nemotron_window(model) {
        Some((window_frames, shift_frames)) => Ok(
            NemotronContract {
                window_frames,
                shift_frames,
                blank_id: if is_multilingual_nemotron(model) { 13_087usize } else { 1_024usize },
                cache_channel_frames: if is_multilingual_nemotron(model) {
                    MULTILINGUAL_CACHE_CHANNEL_FRAMES
                } else {
                    ENGLISH_CACHE_CHANNEL_FRAMES
                },
                prompt_ids: None,
            },
        ),
        None => Err(UnsupportedModel { model }),
    }
}

pub open spec fn spec_prompt_id(
    prompt_ids: Option<NemotronPromptIds>,
    language_hint: Option<AsrLanguage>,
) -> Option<i64> {
    match prompt_ids {
        Some(ids) => Some(
            if language_hint == Some(AsrLanguage::Japanese) {
                ids.japanese
            } else {
                ids.auto
            },
        ),
        None => None,
    }
}

impl NemotronContract {
    /// The streaming geometry of a Nemotron model; prompt ids are filled in
    /// later from the encoder metadata.
    pub fn for_model(model: AsrModel) -> (r: Result<Self, UnsupportedModel>)
        ensures
            r == spec_for_model(model),
    {
        let (window_frames, shift_frames) = match model {
            AsrModel::NemotronSpeechStreamingEn0_6B80MsInt8
            | AsrModel::Nemotron3_5AsrStreaming0_6B80MsInt8 => (17, 8),
            AsrModel::NemotronSpeechStreamingEn0_6B160MsInt8
            | AsrModel::Nemotron3_5AsrStreaming0_6B160MsInt8 => (25, 16),
            AsrModel::NemotronSpeechStreamingEn0_6B320MsInt8
            | AsrModel::Nemotron3_5AsrStreaming0_6B320MsInt8 => (41, 32),
            AsrModel::NemotronSpeechStreamingEn0_6B560MsInt8
            | AsrModel::Nemotron3_5AsrStreaming0_6B560MsInt8 => (65, 56),
            AsrModel::NemotronSpeechStreamingEn0_6B1120MsInt8
            | AsrModel::Nemotron3_5AsrStreaming0_6B1120MsInt8 => (121, 112),
            _ => {
                return Err(UnsupportedModel { model });
            },
        };
        let has_prompt = match model {
            AsrModel::Nemotron3_5AsrStreaming0_6B80MsInt8
            | AsrModel::Nemotron3_5AsrStreaming0_6B160MsInt8
            | AsrModel::Nemotron3_5AsrStreaming0_6B320MsInt8
            | AsrModel::Nemotron3_5AsrStreaming0_6B560MsInt8
            | AsrModel::Nemotron3_5AsrStreaming0_6B1120MsInt8 => true,
            _ => false,
        };
        Ok(NemotronContract {
            window_frames,
            shift_frames,
            blank_id: if has_prompt { 13_087 } else { 1_024 },
            cache_channel_frames: if has_prompt {
                MULTILINGUAL_CACHE_CHANNEL_FRAMES
            } else {
                ENGLISH_CACHE_CHANNEL_FRAMES
            },
            prompt_ids: None,
        })
    }

    /// Elements of the `cache_last_channel` tensor: layers x frames x width.
    pub fn cache_channel_elements(self) -> (r: usize)
        requires
            CACHE_LAYERS * self.cache_channel_frames * ENCODER_DIM <= usize::MAX,
        ensures
            r == CACHE_LAYERS * self.cache_channel_frames * ENCODER_DIM,
    {
        CACHE_LAYERS * self.cache_channel_frames * ENCODER_DIM
    }

    /// The decoder prompt: Japanese only when the host asked for it,
    /// automatic detection otherwise; `None` for an export without prompts.
    pub fn prompt_id(self, language_hint: Option<AsrLanguage>) -> (r: Option<i64>)
        ensures
            r == spec_prompt_id(self.prompt_ids, language_hint),
    {
        match self.prompt_ids {
            Some(ids) => Some(
                match language_hint {
                    Some(AsrLanguage::Japanese) => ids.japanese,
                    _ => ids.auto,
                },
            ),
            None => None,
        }
    }
}

/// For every Nemotron latency the encoder window is the chunk shift plus nine
/// frames, the shift is a positive multiple of eight frames, only the
/// multilingual exports use the narrower cache, and no prompt is known before
/// the encoder metadata is read.
pub proof fn lemma_nemotron_geometry(model: AsrModel)
    requires
        nemotron_window(model) is Some,
    ensures
        spec_for_model(model) matches Ok(c) && c.window_frames == c.shift_frames + 9
            && c.shift_frames % 8 == 0 && c.shift_frames > 0 && (c.cache_channel_frames
            == MULTILINGUAL_CACHE_CHANNEL_FRAMES <==> is_multilingual_nemotron(model))
            && c.prompt_ids is None,
{
}

/// Parses `tokens.txt` of a Nemotron export: ids `0..=blank_id`, each once,
/// with `<blk>` at the blank id.
pub fn parse_tokens(contents: &str, blank_id: usize) -> (r: Result<Vec<String>, TokenTableError>)
    requires
        blank_id < usize::MAX,
    ensures
        reports(r, spec_parse_blank_table(contents@, blank_id as nat + 1, blank_id)),
{
    parse_blank_table(contents, blank_id + 1, blank_id)
}

/// CJK letters: kana, CJK unified ideographs (with extension A) and Hangul
/// syllables.
pub open spec fn spec_is_cjk(character: char) -> bool {
    let v = character as u32;
    (0x3040 <= v <= 0x30ff) || (0x3400 <= v <= 0x9fff) || (0xac00 <= v <= 0xd7af)
}

pub fn is_cjk(character: char) -> (r: bool)
    ensures
        r == spec_is_cjk(character),
{
    let v = character as u32;
    (0x3040 <= v && v <= 0x30ff) || (0x3400 <= v && v <= 0x9fff) || (0xac00 <= v && v <= 0xd7af)
}

/// Whether the character at `k` of the joined token text is a space between
/// two CJK characters, which the detokenizer drops.
pub open spec fn is_internal_cjk_space(joined: Seq<char>, k: int) -> bool {
    joined[k] == ' ' && 0 < k && k + 1 < joined.len() && spec_is_cjk(joined[k - 1]) && spec_is_cjk(
        joined[k + 1],
    )
}

/// The characters of `joined[lo..hi]` that the detokenizer keeps, in order.
pub open spec fn kept_chars(joined: Seq<char>, lo: int, hi: int) -> Seq<char>
    decreases hi - lo,
{
    if hi <= lo {
        Seq::empty()
    } else if is_internal_cjk_space(joined, hi - 1) {
        kept_chars(joined, lo, hi - 1)
    } else {
        kept_chars(joined, lo, hi - 1).push(joined[hi - 1])
    }
}

/// Removes every space that stands between two CJK characters of the joined
/// token text, and returns the resulting text with the part of it that each
/// token contributed.
pub fn detokenize_cjk_tokens(token_texts: &[String]) -> (r: (String, Vec<String>))
    ensures
        ({
            let joined = concat_views(token_texts@);
            &&& r.0@ == kept_chars(joined, 0, joined.len() as int)
            &&& r.1.len() == token_texts.len()
            &&& forall|t: int|
                0 <= t < token_texts.len() ==> (#[trigger] r.1@[t])@ == kept_chars(
                    joined,
                    token_start(token_texts@, t),
                    token_start(token_texts@, t) + token_texts@[t]@.len(),
                )
            &&& r.0@ == concat_views(r.1@)
        }),
{
    let joined = joined_chars(token_texts);
    let ghost tokens = token_texts@;
    let mut text: Vec<char> = Vec::new();
    let mut normalized: Vec<String> = Vec::new();
    let mut offset: usize = 0;
    let mut t: usize = 0;
    while t < token_texts.len()
        invariant
            t <= token_texts.len(),
            tokens == token_texts@,
            joined@ == concat_views(tokens),
            offset == token_start(tokens, t as int),
            offset <= joined.len(),
            text@ == kept_chars(joined@, 0, offset as int),
            text@ == concat_views(normalized@),
            normalized.len() == t,
            forall|u: int|
                0 <= u < t ==> (#[trigger] normalized@[u])@ == kept_chars(
                    joined@,
                    token_start(tokens, u),
                    token_start(tokens, u) + tokens[u]@.len(),
                ),
        decreases token_texts.len() - t,
    {
        let len = chars_of(token_texts[t].as_str()).len();
        proof {
            lemma_concat_push(tokens, t as int);
            lemma_concat_prefix_len(tokens, t as int + 1);
        }
        let mut piece: Vec<char> = Vec::new();
        let ghost text_before = text@;
        let mut j: usize = 0;
        while j < len
            invariant
                j <= len,
                len == tokens[t as int]@.len(),
                offset + len <= joined.len(),
                joined@ == concat_views(tokens),
                text@ == kept_chars(joined@, 0, offset + j),
                piece@ == kept_chars(joined@, offset as int, offset + j),
                text@ == text_before + piece@,
            decreases len - j,
        {
            let k = offset + j;
            let c = joined[k];
            let drop = c == ' ' && k > 0 && k + 1 < joined.len() && is_cjk(joined[k - 1]) && is_cjk(
                joined[k + 1],
            );
            if !drop {
                piece.push(c);
                text.push(c);
            }
            proof {
                assert(drop == is_internal_cjk_space(joined@, k as int));
            }
            j = j + 1;
        }
        let s = string_of(&piece);
        proof {
            assert(normalized@.push(s).drop_last() =~= normalized@);
        }
        normalized.push(s);
        offset = offset + len;
        t = t + 1;
    }
    let joined_text = string_of(&text);
    proof {
        assert(tokens.take(tokens.len() as int) =~= tokens);
    }
    (joined_text, normalized)
}

/// Text without a space between two CJK characters passes through unchanged,
/// and otherwise the detokenizer only ever shortens it.
pub proof fn lemma_detokenize_only_drops_internal_spaces(joined: Seq<char>, lo: int, hi: int)
    requires
        0 <= lo <= hi <= joined.len(),
    ensures
        kept_chars(joined, lo, hi).len() <= hi - lo,
        (forall|k: int| lo <= k < hi ==> !is_internal_cjk_space(joined, k)) ==> kept_chars(
            joined,
            lo,
            hi,
        ) == joined.subrange(lo, hi),
    decreases hi - lo,
{
    if lo < hi {
        lemma_detokenize_only_drops_internal_spaces(joined, lo, hi - 1);
        if forall|k: int| lo <= k < hi ==> !is_internal_cjk_space(joined, k) {
            assert(joined.subrange(lo, hi) =~= joined.subrange(lo, hi - 1).push(joined[hi - 1]));
        }
    } else {
        assert(joined.subrange(lo, hi) =~= Seq::<char>::empty());
    }
}


proof fn lemma_kept_chars_shape(joined: Seq<char>, hi: int)
    requires
        0 <= hi <= joined.len(),
    ensures
        ({
            let out = kept_chars(joined, 0, hi);
            &&& forall|k: int|
                0 < k < out.len() - 1 ==> !(#[trigger] out[k] == ' ' && spec_is_cjk(out[k - 1]) && spec_is_cjk(
                    out[k + 1],
                ))
            &&& hi > 0 ==> out.len() > 0
            &&& hi > 0 && is_internal_cjk_space(joined, hi - 1) ==> hi >= 2 && out.last() == joined[hi - 2]
            &&& hi > 0 && !is_internal_cjk_space(joined, hi - 1) ==> out.last() == joined[hi - 1]
            &&& hi > 0 && !is_internal_cjk_space(joined, hi - 1) && joined[hi - 1] == ' ' && out.len() >= 2
                ==> hi >= 2 && out[out.len() - 2] == joined[hi - 2]
            &&& out.filter(|c: char| c != ' ') == joined.take(hi).filter(|c: char| c != ' ')
        }),
    decreases hi,
{
    broadcast use Seq::lemma_filter_push;

    if hi == 0 {
        assert(joined.take(0) =~= Seq::<char>::empty());
    } else {
        lemma_kept_chars_shape(joined, hi - 1);
        let out = kept_chars(joined, 0, hi - 1);
        let c = joined[hi - 1];
        assert(joined.take(hi) =~= joined.take(hi - 1).push(c));
        if is_internal_cjk_space(joined, hi - 1) {
            assert(kept_chars(joined, 0, hi) == out);
            assert(!is_internal_cjk_space(joined, hi - 2));
        } else {
            let next = out.push(c);
            assert(kept_chars(joined, 0, hi) == next);
            if hi >= 2 && is_internal_cjk_space(joined, hi - 2) {
                assert(spec_is_cjk(joined[hi - 1]));
            }
            assert forall|k: int|
                0 < k < next.len() - 1 implies !(#[trigger] next[k] == ' ' && spec_is_cjk(next[k - 1]) && spec_is_cjk(
                next[k + 1],
            )) by {
                if k < out.len() - 1 {
                    assert(next[k] == out[k] && next[k - 1] == out[k - 1] && next[k + 1] == out[k + 1]);
                } else {
                    assert(k == out.len() - 1);
                    assert(next[k] == out.last());
                    assert(next[k + 1] == c);
                    assert(next[k - 1] == out[out.len() - 2]);
                }
            }
        }
    }
}

/// The detokenizer drops every space between two CJK characters (kana,
/// ideographs or Hangul, in any pairing) and nothing else: its text holds no
/// space between two such characters, and the characters other than spaces
/// are those of the token texts, in order.
pub proof fn lemma_detokenize_drops_cjk_spaces(token_texts: Seq<String>)
    ensures
        ({
            let joined = concat_views(token_texts);
            let out = kept_chars(joined, 0, joined.len() as int);
            &&& forall|k: int|
                0 < k < out.len() - 1 ==> !(#[trigger] out[k] == ' ' && ({
                    let v = out[k - 1] as u32;
                    (0x3040 <= v <= 0x30ff) || (0x3400 <= v <= 0x9fff) || (0xac00 <= v <= 0xd7af)
                }) && ({
                    let v = out[k + 1] as u32;
                    (0x3040 <= v <= 0x30ff) || (0x3400 <= v <= 0x9fff) || (0xac00 <= v <= 0xd7af)
                }))
            &&& out.filter(|c: char| c != ' ') == joined.filter(|c: char| c != ' ')
        }),
{
    let joined = concat_views(token_texts);
    lemma_kept_chars_shape(joined, joined.len() as int);
    assert(joined.take(joined.len() as int) =~= joined);
}

/// What is wrong with one encoder output.
#[derive(Debug, Clone, Copy, PartialEq, Eq, Structural)]
pub enum NemotronOutputError {
    /// The output is not one batch of `ENCODER_DIM` rows.
    Shape,
    /// The frame count of the output is not a `usize`.
    OutputFrames,
    /// The encoded length is missing or not a `usize`.
    EncodedLength,
    /// The encoded length is zero or longer than the output.
    LengthBeyondOutput,
}

/// The output frames and the encoded frames of an encoder output of shape
/// `shape` with `encoded_lengths`, or what is wrong, checked in this order.
pub open spec fn spec_encoder_output(shape: Seq<i64>, encoded_lengths: Seq<i64>) -> Result<
    (usize, usize),
    NemotronOutputError,
> {
    if shape.len() != 3 || shape[0] != 1 || shape[1] != ENCODER_DIM {
        Err(NemotronOutputError::Shape)
    } else if shape[2] < 0 || shape[2] > usize::MAX {
        Err(NemotronOutputError::OutputFrames)
    } else if encoded_lengths.len() == 0 || encoded_lengths[0] < 0 || encoded_lengths[0] > usize::MAX {
        Err(NemotronOutputError::EncodedLength)
    } else if encoded_lengths[0] == 0 || encoded_lengths[0] > shape[2] {
        Err(NemotronOutputError::LengthBeyondOutput)
    } else {
        Ok((shape[2] as usize, encoded_lengths[0] as usize))
    }
}

/// Checks one streaming encoder output and returns its frame count and the
/// number of those frames that carry encoded audio.
pub fn check_encoder_output(shape: &[i64], encoded_lengths: &[i64]) -> (r: Result<(usize, usize), NemotronOutputError>)
    ensures
        r == spec_encoder_output(shape@, encoded_lengths@),
{
    if shape.len() != 3 || shape[0] != 1 || shape[1] != ENCODER_DIM as i64 {
        return Err(NemotronOutputError::Shape);
    }
    if shape[2] < 0 || shape[2] as u64 > usize::MAX as u64 {
        return Err(NemotronOutputError::OutputFrames);
    }
    let all_frames = shape[2] as usize;
    if encoded_lengths.len() == 0 || encoded_lengths[0] < 0 || encoded_lengths[0] as u64 > usize::MAX as u64 {
        return Err(NemotronOutputError::EncodedLength);
    }
    let frames = encoded_lengths[0] as usize;
    if frames == 0 || frames > all_frames {
        return Err(NemotronOutputError::LengthBeyondOutput);
    }
    Ok((all_frames, frames))
}

/// What `serde_json` decodes from a prompt dictionary for `key`: nothing when
/// the text is not a JSON object of integers, `Some(None)` when it has no
/// such key.
pub uninterp spec fn json_prompt_entry(dictionary: Seq<char>, key: Seq<char>) -> Option<Option<i64>>;

/// Decodes `dictionary` with `serde_json::from_str` into a
/// `HashMap<String, i64>` and looks `key` up with `HashMap::get`. Trusted:
/// the result is only named (`json_prompt_entry` of the two texts).
#[verifier::external_body]
fn prompt_dictionary_entry(dictionary: &str, key: &str) -> (r: Option<Option<i64>>)
    ensures
        r == json_prompt_entry(dictionary@, key@),
{
    serde_json::from_str::<HashMap<String, i64>>(dictionary).ok().map(|entries| entries.get(key).copied())
}

/// Why the prompt ids of a multilingual export cannot be read.
#[derive(Debug, Clone, Copy, PartialEq, Eq, Structural)]
pub enum NemotronPromptError {
    DictionaryInvalid,
    NoAutoEntry,
    /// The `auto` entry disagrees with the encoder's auto prompt id.
    AutoMismatch,
    NoJapaneseEntry,
}

impl NemotronPromptError {
    pub fn message(self) -> (r: &'static str)
        ensures
            r@ == match self {
                NemotronPromptError::DictionaryInvalid => "Nemotron prompt dictionary metadata is invalid"@,
                NemotronPromptError::NoAutoEntry => "Nemotron prompt dictionary has no auto entry"@,
                NemotronPromptError::AutoMismatch => "Nemotron auto prompt metadata disagrees with its prompt dictionary"@,
                NemotronPromptError::NoJapaneseEntry => "Nemotron prompt dictionary has no Japanese entry"@,
            },
    {
        match self {
            NemotronPromptError::DictionaryInvalid => "Nemotron prompt dictionary metadata is invalid",
            NemotronPromptError::NoAutoEntry => "Nemotron prompt dictionary has no auto entry",
            NemotronPromptError::AutoMismatch => "Nemotron auto prompt metadata disagrees with its prompt dictionary",
            NemotronPromptError::NoJapaneseEntry => "Nemotron prompt dictionary has no Japanese entry",
        }
    }
}

/// The id the dictionary gives `key`, if it decodes and has one.
pub open spec fn prompt_entry(dictionary: Seq<char>, key: Seq<char>) -> Option<i64> {
    match json_prompt_entry(dictionary, key) {
        Some(Some(id)) => Some(id),
        _ => None,
    }
}

/// The Japanese prompt: the first of `ja`, `ja-JP` and `ja-JA` present.
pub open spec fn japanese_prompt_entry(dictionary: Seq<char>) -> Option<i64> {
    if prompt_entry(dictionary, "ja"@) is Some {
        prompt_entry(dictionary, "ja"@)
    } else if prompt_entry(dictionary, "ja-JP"@) is Some {
        prompt_entry(dictionary, "ja-JP"@)
    } else {
        prompt_entry(dictionary, "ja-JA"@)
    }
}

/// The prompt ids of a multilingual export whose encoder names `auto` as its
/// automatic prompt, or why they cannot be read, checked in this order.
pub open spec fn spec_prompt_ids(auto: i64, dictionary: Seq<char>) -> Result<NemotronPromptIds, NemotronPromptError> {
    match json_prompt_entry(dictionary, "auto"@) {
        None => Err(NemotronPromptError::DictionaryInvalid),
        Some(None) => Err(NemotronPromptError::NoAutoEntry),
        Some(Some(entry)) => if entry != auto {
            Err(NemotronPromptError::AutoMismatch)
        } else {
            match japanese_prompt_entry(dictionary) {
                Some(japanese) => Ok(NemotronPromptIds { auto, japanese }),
                None => Err(NemotronPromptError::NoJapaneseEntry),
            }
        },
    }
}

fn lookup_prompt(dictionary: &str, key: &str) -> (r: Option<i64>)
    ensures
        r == prompt_entry(dictionary@, key@),
{
    match prompt_dictionary_entry(dictionary, key) {
        Some(Some(id)) => Some(id),
        _ => None,
    }
}

/// Reads the automatic and the Japanese prompt ids from the prompt
/// dictionary of a multilingual encoder.
pub fn resolve_prompt_ids(auto: i64, dictionary: &str) -> (r: Result<NemotronPromptIds, NemotronPromptError>)
    ensures
        r == spec_prompt_ids(auto, dictionary@),
{
    let entry = match prompt_dictionary_entry(dictionary, "auto") {
        None => {
            return Err(NemotronPromptError::DictionaryInvalid);
        },
        Some(None) => {
            return Err(NemotronPromptError::NoAutoEntry);
        },
        Some(Some(entry)) => entry,
    };
    if entry != auto {
        return Err(NemotronPromptError::AutoMismatch);
    }
    let japanese = match lookup_prompt(dictionary, "ja") {
        Some(id) => Some(id),
        None => match lookup_prompt(dictionary, "ja-JP") {
            Some(id) => Some(id),
            None => lookup_prompt(dictionary, "ja-JA"),
        },
    };
    match japanese {
        Some(japanese) => Ok(NemotronPromptIds { auto, japanese }),
        None => Err(NemotronPromptError::NoJapaneseEntry),
    }
}

} // verus!
