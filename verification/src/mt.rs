//! Local machine-translation model identities and language codes.
use vstd::prelude::*;
use crate::text::{chars_of, starts_with, trim, trimmed_chars};

verus! {

#[derive(Debug, Clone, Copy, PartialEq, Eq, Hash, Structural)]
pub enum LocalTranslationModel {
    Lfm2Q4,
    CatTranslate0_8BQ4KQuant,
}

impl Default for LocalTranslationModel {
    fn default() -> (r: Self)
        ensures
            r == LocalTranslationModel::Lfm2Q4,
    {
        LocalTranslationModel::Lfm2Q4
    }
}

impl LocalTranslationModel {
    /// Every translation model is available in this build.
    pub fn is_available(self) -> (r: bool)
        ensures
            r,
    {
        match self {
            LocalTranslationModel::Lfm2Q4 | LocalTranslationModel::CatTranslate0_8BQ4KQuant => true,
        }
    }

    pub fn sort_key(self) -> (r: u8)
        ensures
            r == (match self {
                LocalTranslationModel::Lfm2Q4 => 0u8,
                LocalTranslationModel::CatTranslate0_8BQ4KQuant => 1u8,
            }),
    {
        match self {
            LocalTranslationModel::Lfm2Q4 => 0,
            LocalTranslationModel::CatTranslate0_8BQ4KQuant => 1,
        }
    }

    /// Path of the ONNX graph inside the model directory.
    pub fn onnx_file_name(self) -> (r: &'static str)
        ensures
            r@ == (match self {
                LocalTranslationModel::Lfm2Q4 => "onnx/model_q4.onnx"@,
                LocalTranslationModel::CatTranslate0_8BQ4KQuant => "model_q4.onnx"@,
            }),
    {
        match self {
            LocalTranslationModel::Lfm2Q4 => "onnx/model_q4.onnx",
            LocalTranslationModel::CatTranslate0_8BQ4KQuant => "model_q4.onnx",
        }
    }
}

#[derive(Debug, Clone, Copy, PartialEq, Eq, Hash, Structural)]
pub enum TranslationLanguage {
    En,
    Ja,
}

/// ASCII lower-casing of one character, as `str::to_ascii_lowercase` does it.
pub open spec fn ascii_lower(c: char) -> char {
    if 'A' <= c <= 'Z' {
        ((c as u32) + 32) as char
    } else {
        c
    }
}

/// The language named by a (possibly locale-qualified) code.
pub open spec fn spec_from_code(value: Seq<char>) -> Option<TranslationLanguage> {
    let normalized = trim(value).map_values(|c: char| ascii_lower(c));
    if starts_with(normalized, seq!['e', 'n']) {
        Some(TranslationLanguage::En)
    } else if starts_with(normalized, seq!['j', 'a']) {
        Some(TranslationLanguage::Ja)
    } else {
        None
    }
}

pub open spec fn spec_other(language: TranslationLanguage) -> TranslationLanguage {
    match language {
        TranslationLanguage::En => TranslationLanguage::Ja,
        TranslationLanguage::Ja => TranslationLanguage::En,
    }
}

pub open spec fn spec_code(language: TranslationLanguage) -> Seq<char> {
    match language {
        TranslationLanguage::En => seq!['e', 'n'],
        TranslationLanguage::Ja => seq!['j', 'a'],
    }
}

/// Whether `c` lower-cases to `lower`, for a lower-case ASCII letter `lower`.
fn is_ascii_letter_ignoring_case(c: char, lower: char, upper: char) -> (r: bool)
    requires
        'a' <= lower <= 'z',
        upper as u32 + 32 == lower as u32,
    ensures
        r == (ascii_lower(c) == lower),
{
    c == lower || c == upper
}

impl TranslationLanguage {
    pub fn as_code(self) -> (r: &'static str)
        ensures
            r@ == spec_code(self),
    {
        proof {
            reveal_strlit("en");
            reveal_strlit("ja");
        }
        match self {
            TranslationLanguage::En => "en",
            TranslationLanguage::Ja => "ja",
        }
    }

    pub fn other(self) -> (r: Self)
        ensures
            r == spec_other(self),
    {
        match self {
            TranslationLanguage::En => TranslationLanguage::Ja,
            TranslationLanguage::Ja => TranslationLanguage::En,
        }
    }

    /// Accepts `en`, `ja` and locale forms such as `en_US` or ` JA-jp `.
    pub fn from_code(value: &str) -> (r: Option<Self>)
        ensures
            r == spec_from_code(value@),
    {
        let chars = chars_of(value);
        let trimmed = trimmed_chars(&chars);
        let ghost normalized = trim(value@).map_values(|c: char| ascii_lower(c));
        if trimmed.len() >= 2 {
            let first_e = is_ascii_letter_ignoring_case(trimmed[0], 'e', 'E');
            let second_n = is_ascii_letter_ignoring_case(trimmed[1], 'n', 'N');
            let first_j = is_ascii_letter_ignoring_case(trimmed[0], 'j', 'J');
            let second_a = is_ascii_letter_ignoring_case(trimmed[1], 'a', 'A');
            proof {
                assert(normalized.take(2)[0] == normalized[0]);
                assert(normalized.take(2)[1] == normalized[1]);
                if first_e && second_n {
                    assert(normalized.take(2) =~= seq!['e', 'n']);
                } else {
                    assert(normalized.take(2) != seq!['e', 'n']);
                }
                if first_j && second_a {
                    assert(normalized.take(2) =~= seq!['j', 'a']);
                } else {
                    assert(normalized.take(2) != seq!['j', 'a']);
                }
            }
            if first_e && second_n {
                return Some(TranslationLanguage::En);
            }
            if first_j && second_a {
                return Some(TranslationLanguage::Ja);
            }
        }
        None
    }
}

/// Switching the translation direction twice returns the original language.
pub proof fn lemma_other_is_an_involution(language: TranslationLanguage)
    ensures
        spec_other(spec_other(language)) == language,
        spec_other(language) != language,
{
}

/// A canonical code is read back as the language that produced it.
pub proof fn lemma_code_round_trip(language: TranslationLanguage)
    ensures
        spec_from_code(spec_code(language)) == Some(language),
{
    let code = spec_code(language);
    assert(!crate::text::is_unicode_whitespace(code[0]));
    assert(!crate::text::is_unicode_whitespace(code[1]));
    assert(!crate::text::is_unicode_whitespace(code.last()));
    crate::text::lemma_leading_whitespace_exact(code, 0);
    assert(code.skip(0) =~= code);
    crate::text::lemma_trailing_whitespace_exact(code, 0);
    assert(code.take(2) =~= code);
    let normalized = trim(code).map_values(|c: char| ascii_lower(c));
    assert(normalized =~= code);
}

} // verus!
