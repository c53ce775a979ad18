//! Identities and static capabilities of the supported ASR models.
use vstd::prelude::*;

verus! {

/// Numeric precision of a model export.
#[derive(Debug, Clone, Copy, PartialEq, Eq, Structural)]
pub enum AsrPrecision {
    Int8,
    Int8Float32,
    Float32,
}

impl Default for AsrPrecision {
    fn default() -> (r: Self)
        ensures
            r == AsrPrecision::Int8Float32,
    {
        AsrPrecision::Int8Float32
    }
}

/// Every ASR model that the host can select.
#[derive(Debug, Clone, Copy, PartialEq, Eq, Hash, Structural)]
pub enum AsrModel {
    ReazonSpeechK2V2,
    NemoParakeetTdtCtc0_6BJa35000Int8,
    NemoParakeetTdt0_6BV2Int8,
    NemoParakeetTdt0_6BV3Int8,
    NemotronSpeechStreamingEn0_6B80MsInt8,
    NemotronSpeechStreamingEn0_6B160MsInt8,
    NemotronSpeechStreamingEn0_6B320MsInt8,
    NemotronSpeechStreamingEn0_6B560MsInt8,
    NemotronSpeechStreamingEn0_6B1120MsInt8,
    Nemotron3_5AsrStreaming0_6B80MsInt8,
    Nemotron3_5AsrStreaming0_6B160MsInt8,
    Nemotron3_5AsrStreaming0_6B320MsInt8,
    Nemotron3_5AsrStreaming0_6B560MsInt8,
    Nemotron3_5AsrStreaming0_6B1120MsInt8,
}

impl Default for AsrModel {
    fn default() -> (r: Self)
        ensures
            r == AsrModel::ReazonSpeechK2V2,
    {
        AsrModel::ReazonSpeechK2V2
    }
}

#[derive(Debug, Clone, Copy, PartialEq, Eq, Structural)]
pub enum AsrModelImplementation {
    ReazonSpeechK2,
    NemoParakeetTdtCtc,
    NemoParakeetTdt,
    Nemotron,
}

#[derive(Debug, Clone, Copy, PartialEq, Eq, Structural)]
pub enum AsrModelCapability {
    CompletionAndInterim,
    InterimOnly,
}

#[derive(Debug, Clone, Copy, PartialEq, Eq, Structural)]
pub enum AsrStreamLanguage {
    Unset,
    Nemotron35Auto,
}

#[derive(Debug, Clone, Copy, PartialEq, Eq, Structural)]
pub enum AsrLanguage {
    Japanese,
    English,
    EuropeanMultilingual,
    Multilingual,
}

impl Default for AsrLanguage {
    fn default() -> (r: Self)
        ensures
            r == AsrLanguage::Japanese,
    {
        AsrLanguage::Japanese
    }
}

/// Static facts about one model.
#[derive(Debug, Clone, Copy)]
pub struct AsrModelInfo {
    pub language: AsrLanguage,
    pub supported_language_codes: &'static [&'static str],
    pub supported_precisions: &'static [AsrPrecision],
    pub default_precision: AsrPrecision,
    pub implementation: AsrModelImplementation,
    pub capability: AsrModelCapability,
    pub stream_language: AsrStreamLanguage,
    pub sort_key: u8,
}

/// The model family of a Nemotron English streaming export.
pub open spec fn is_nemotron_english(model: AsrModel) -> bool {
    ||| model == AsrModel::NemotronSpeechStreamingEn0_6B80MsInt8
    ||| model == AsrModel::NemotronSpeechStreamingEn0_6B160MsInt8
    ||| model == AsrModel::NemotronSpeechStreamingEn0_6B320MsInt8
    ||| model == AsrModel::NemotronSpeechStreamingEn0_6B560MsInt8
    ||| model == AsrModel::NemotronSpeechStreamingEn0_6B1120MsInt8
}

/// The model family of a Nemotron 3.5 multilingual streaming export.
pub open spec fn is_nemotron_multilingual(model: AsrModel) -> bool {
    ||| model == AsrModel::Nemotron3_5AsrStreaming0_6B80MsInt8
    ||| model == AsrModel::Nemotron3_5AsrStreaming0_6B160MsInt8
    ||| model == AsrModel::Nemotron3_5AsrStreaming0_6B320MsInt8
    ||| model == AsrModel::Nemotron3_5AsrStreaming0_6B560MsInt8
    ||| model == AsrModel::Nemotron3_5AsrStreaming0_6B1120MsInt8
}

pub open spec fn spec_language(model: AsrModel) -> AsrLanguage {
    match model {
        AsrModel::ReazonSpeechK2V2 | AsrModel::NemoParakeetTdtCtc0_6BJa35000Int8 => AsrLanguage::Japanese,
        AsrModel::NemoParakeetTdt0_6BV2Int8 => AsrLanguage::English,
        AsrModel::NemoParakeetTdt0_6BV3Int8 => AsrLanguage::EuropeanMultilingual,
        _ => if is_nemotron_english(model) { AsrLanguage::English } else { AsrLanguage::Multilingual },
    }
}

pub open spec fn parakeet_v3_language_codes() -> Seq<Seq<char>> {
    seq![
        "bg"@, "hr"@, "cs"@, "da"@, "nl"@, "en"@, "et"@, "fi"@, "fr"@, "de"@, "el"@, "hu"@, "it"@,
        "lv"@, "lt"@, "mt"@, "pl"@, "pt"@, "ro"@, "sk"@, "sl"@, "es"@, "sv"@, "ru"@, "uk"@,
    ]
}

pub open spec fn nemotron_3_5_language_codes() -> Seq<Seq<char>> {
    seq![
        "ar"@, "bg"@, "cs"@, "da"@, "de"@, "el"@, "en"@, "es"@, "et"@, "fi"@, "fr"@, "hi"@, "hr"@,
        "hu"@, "it"@, "ja"@, "ko"@, "nl"@, "nb"@, "pl"@, "pt"@, "ro"@, "ru"@, "sk"@, "sv"@, "tr"@,
        "uk"@, "vi"@, "zh"@,
    ]
}

pub open spec fn spec_language_codes(model: AsrModel) -> Seq<Seq<char>> {
    match spec_language(model) {
        AsrLanguage::Japanese => seq!["ja"@],
        AsrLanguage::English => seq!["en"@],
        AsrLanguage::EuropeanMultilingual => parakeet_v3_language_codes(),
        AsrLanguage::Multilingual => nemotron_3_5_language_codes(),
    }
}

pub open spec fn spec_supported_precisions(model: AsrModel) -> Seq<AsrPrecision> {
    if model == AsrModel::ReazonSpeechK2V2 {
        seq![AsrPrecision::Int8, AsrPrecision::Int8Float32, AsrPrecision::Float32]
    } else {
        seq![AsrPrecision::Int8]
    }
}

pub open spec fn spec_default_precision(model: AsrModel) -> AsrPrecision {
    if model == AsrModel::ReazonSpeechK2V2 {
        AsrPrecision::Int8Float32
    } else {
        AsrPrecision::Int8
    }
}

pub open spec fn spec_implementation(model: AsrModel) -> AsrModelImplementation {
    match model {
        AsrModel::ReazonSpeechK2V2 => AsrModelImplementation::ReazonSpeechK2,
        AsrModel::NemoParakeetTdtCtc0_6BJa35000Int8 => AsrModelImplementation::NemoParakeetTdtCtc,
        AsrModel::NemoParakeetTdt0_6BV2Int8
        | AsrModel::NemoParakeetTdt0_6BV3Int8 => AsrModelImplementation::NemoParakeetTdt,
        _ => AsrModelImplementation::Nemotron,
    }
}

pub open spec fn spec_capability(model: AsrModel) -> AsrModelCapability {
    if spec_implementation(model) == AsrModelImplementation::Nemotron {
        AsrModelCapability::InterimOnly
    } else {
        AsrModelCapability::CompletionAndInterim
    }
}

pub open spec fn spec_stream_language(model: AsrModel) -> AsrStreamLanguage {
    if is_nemotron_multilingual(model) {
        AsrStreamLanguage::Nemotron35Auto
    } else {
        AsrStreamLanguage::Unset
    }
}

pub open spec fn spec_sort_key(model: AsrModel) -> u8 {
    match model {
        AsrModel::ReazonSpeechK2V2 => 0,
        AsrModel::NemoParakeetTdtCtc0_6BJa35000Int8 => 1,
        AsrModel::NemoParakeetTdt0_6BV2Int8 => 2,
        AsrModel::NemoParakeetTdt0_6BV3Int8 => 3,
        _ => if is_nemotron_english(model) { 4 } else { 5 },
    }
}

/// The view of a table of static strings as character sequences.
pub open spec fn str_table_view(table: &[&str]) -> Seq<Seq<char>> {
    table@.map_values(|s: &str| s@)
}

/// The facts recorded for `model`.
pub open spec fn info_matches(model: AsrModel, info: AsrModelInfo) -> bool {
    &&& info.language == spec_language(model)
    &&& str_table_view(info.supported_language_codes) == spec_language_codes(model)
    &&& info.supported_precisions@ == spec_supported_precisions(model)
    &&& info.default_precision == spec_default_precision(model)
    &&& info.implementation == spec_implementation(model)
    &&& info.capability == spec_capability(model)
    &&& info.stream_language == spec_stream_language(model)
    &&& info.sort_key == spec_sort_key(model)
}

fn parakeet_tdt_0_6b_v3_language_codes() -> (r: &'static [&'static str])
    ensures
        str_table_view(r) == parakeet_v3_language_codes(),
{
    let r: &'static [&'static str] = &[
        "bg", "hr", "cs", "da", "nl", "en", "et", "fi", "fr", "de", "el", "hu", "it", "lv", "lt",
        "mt", "pl", "pt", "ro", "sk", "sl", "es", "sv", "ru", "uk",
    ];
    assert(str_table_view(r) =~= parakeet_v3_language_codes());
    r
}

fn nemotron_3_5_language_codes_table() -> (r: &'static [&'static str])
    ensures
        str_table_view(r) == nemotron_3_5_language_codes(),
{
    let r: &'static [&'static str] = &[
        "ar", "bg", "cs", "da", "de", "el", "en", "es", "et", "fi", "fr", "hi", "hr", "hu", "it",
        "ja", "ko", "nl", "nb", "pl", "pt", "ro", "ru", "sk", "sv", "tr", "uk", "vi", "zh",
    ];
    assert(str_table_view(r) =~= nemotron_3_5_language_codes());
    r
}

fn japanese_codes() -> (r: &'static [&'static str])
    ensures
        str_table_view(r) == seq!["ja"@],
{
    let r: &'static [&'static str] = &["ja"];
    assert(str_table_view(r) =~= seq!["ja"@]);
    r
}

fn english_codes() -> (r: &'static [&'static str])
    ensures
        str_table_view(r) == seq!["en"@],
{
    let r: &'static [&'static str] = &["en"];
    assert(str_table_view(r) =~= seq!["en"@]);
    r
}

fn int8_only() -> (r: &'static [AsrPrecision])
    ensures
        r@ == seq![AsrPrecision::Int8],
{
    let r: &'static [AsrPrecision] = &[AsrPrecision::Int8];
    assert(r@ =~= seq![AsrPrecision::Int8]);
    r
}

fn every_precision() -> (r: &'static [AsrPrecision])
    ensures
        r@ == seq![AsrPrecision::Int8, AsrPrecision::Int8Float32, AsrPrecision::Float32],
{
    let r: &'static [AsrPrecision] = &[
        AsrPrecision::Int8,
        AsrPrecision::Int8Float32,
        AsrPrecision::Float32,
    ];
    assert(r@ =~= seq![AsrPrecision::Int8, AsrPrecision::Int8Float32, AsrPrecision::Float32]);
    r
}

impl AsrModel {
    /// Returns every static fact about the model.
    pub fn info(self) -> (r: AsrModelInfo)
        ensures
            info_matches(self, r),
    {
        match self {
            AsrModel::ReazonSpeechK2V2 => AsrModelInfo {
                language: AsrLanguage::Japanese,
                supported_language_codes: japanese_codes(),
                supported_precisions: every_precision(),
                default_precision: AsrPrecision::Int8Float32,
                implementation: AsrModelImplementation::ReazonSpeechK2,
                capability: AsrModelCapability::CompletionAndInterim,
                stream_language: AsrStreamLanguage::Unset,
                sort_key: 0,
            },
            AsrModel::NemoParakeetTdtCtc0_6BJa35000Int8 => AsrModelInfo {
                language: AsrLanguage::Japanese,
                supported_language_codes: japanese_codes(),
                supported_precisions: int8_only(),
                default_precision: AsrPrecision::Int8,
                implementation: AsrModelImplementation::NemoParakeetTdtCtc,
                capability: AsrModelCapability::CompletionAndInterim,
                stream_language: AsrStreamLanguage::Unset,
                sort_key: 1,
            },
            AsrModel::NemoParakeetTdt0_6BV2Int8 => AsrModelInfo {
                language: AsrLanguage::English,
                supported_language_codes: english_codes(),
                supported_precisions: int8_only(),
                default_precision: AsrPrecision::Int8,
                implementation: AsrModelImplementation::NemoParakeetTdt,
                capability: AsrModelCapability::CompletionAndInterim,
                stream_language: AsrStreamLanguage::Unset,
                sort_key: 2,
            },
            AsrModel::NemoParakeetTdt0_6BV3Int8 => AsrModelInfo {
                language: AsrLanguage::EuropeanMultilingual,
                supported_language_codes: parakeet_tdt_0_6b_v3_language_codes(),
                supported_precisions: int8_only(),
                default_precision: AsrPrecision::Int8,
                implementation: AsrModelImplementation::NemoParakeetTdt,
                capability: AsrModelCapability::CompletionAndInterim,
                stream_language: AsrStreamLanguage::Unset,
                sort_key: 3,
            },
            AsrModel::NemotronSpeechStreamingEn0_6B80MsInt8
            | AsrModel::NemotronSpeechStreamingEn0_6B160MsInt8
            | AsrModel::NemotronSpeechStreamingEn0_6B320MsInt8
            | AsrModel::NemotronSpeechStreamingEn0_6B560MsInt8
            | AsrModel::NemotronSpeechStreamingEn0_6B1120MsInt8 => AsrModelInfo {
                language: AsrLanguage::English,
                supported_language_codes: english_codes(),
                supported_precisions: int8_only(),
                default_precision: AsrPrecision::Int8,
                implementation: AsrModelImplementation::Nemotron,
                capability: AsrModelCapability::InterimOnly,
                stream_language: AsrStreamLanguage::Unset,
                sort_key: 4,
            },
            AsrModel::Nemotron3_5AsrStreaming0_6B80MsInt8
            | AsrModel::Nemotron3_5AsrStreaming0_6B160MsInt8
            | AsrModel::Nemotron3_5AsrStreaming0_6B320MsInt8
            | AsrModel::Nemotron3_5AsrStreaming0_6B560MsInt8
            | AsrModel::Nemotron3_5AsrStreaming0_6B1120MsInt8 => AsrModelInfo {
                language: AsrLanguage::Multilingual,
                supported_language_codes: nemotron_3_5_language_codes_table(),
                supported_precisions: int8_only(),
                default_precision: AsrPrecision::Int8,
                implementation: AsrModelImplementation::Nemotron,
                capability: AsrModelCapability::InterimOnly,
                stream_language: AsrStreamLanguage::Nemotron35Auto,
                sort_key: 5,
            },
        }
    }

    pub fn language(self) -> (r: AsrLanguage)
        ensures
            r == spec_language(self),
    {
        self.info().language
    }

    pub fn supported_language_codes(self) -> (r: &'static [&'static str])
        ensures
            str_table_view(r) == spec_language_codes(self),
    {
        self.info().supported_language_codes
    }

    /// The model used for a language when the host has no stored choice.
    pub fn default_for_language(language: AsrLanguage) -> (r: Self)
        ensures
            r == (match language {
                AsrLanguage::Japanese => AsrModel::ReazonSpeechK2V2,
                AsrLanguage::English => AsrModel::NemoParakeetTdt0_6BV2Int8,
                _ => AsrModel::NemoParakeetTdt0_6BV3Int8,
            }),
    {
        match language {
            AsrLanguage::Japanese => AsrModel::ReazonSpeechK2V2,
            AsrLanguage::English => AsrModel::NemoParakeetTdt0_6BV2Int8,
            AsrLanguage::EuropeanMultilingual | AsrLanguage::Multilingual => {
                AsrModel::NemoParakeetTdt0_6BV3Int8
            },
        }
    }

    pub fn supports_precision(self, precision: AsrPrecision) -> (r: bool)
        ensures
            r == spec_supported_precisions(self).contains(precision),
    {
        let precisions = self.info().supported_precisions;
        let mut index: usize = 0;
        while index < precisions.len()
            invariant
                precisions@ == spec_supported_precisions(self),
                index <= precisions@.len(),
                forall|j: int| 0 <= j < index ==> precisions@[j] != precision,
            decreases precisions.len() - index,
        {
            if precisions[index] == precision {
                return true;
            }
            index = index + 1;
        }
        false
    }

    pub fn default_precision(self) -> (r: AsrPrecision)
        ensures
            r == spec_default_precision(self),
    {
        self.info().default_precision
    }

    pub fn implementation(self) -> (r: AsrModelImplementation)
        ensures
            r == spec_implementation(self),
    {
        self.info().implementation
    }

    pub fn capability(self) -> (r: AsrModelCapability)
        ensures
            r == spec_capability(self),
    {
        self.info().capability
    }

    pub fn supports_completion(self) -> (r: bool)
        ensures
            r == (spec_capability(self) == AsrModelCapability::CompletionAndInterim),
    {
        self.capability() == AsrModelCapability::CompletionAndInterim
    }

    pub fn is_interim_only(self) -> (r: bool)
        ensures
            r == (spec_capability(self) == AsrModelCapability::InterimOnly),
    {
        self.capability() == AsrModelCapability::InterimOnly
    }

    pub fn stream_language(self) -> (r: AsrStreamLanguage)
        ensures
            r == spec_stream_language(self),
    {
        self.info().stream_language
    }

    pub fn sort_key(self) -> (r: u8)
        ensures
            r == spec_sort_key(self),
    {
        self.info().sort_key
    }

    pub fn is_nemotron(self) -> (r: bool)
        ensures
            r == (spec_implementation(self) == AsrModelImplementation::Nemotron),
    {
        self.implementation() == AsrModelImplementation::Nemotron
    }

    /// The variant's name, as `{:?}` prints it.
    pub fn debug_name(self) -> (r: &'static str)
        ensures
            r@ == spec_debug_name(self),
    {
        match self {
            AsrModel::ReazonSpeechK2V2 => "ReazonSpeechK2V2",
            AsrModel::NemoParakeetTdtCtc0_6BJa35000Int8 => "NemoParakeetTdtCtc0_6BJa35000Int8",
            AsrModel::NemoParakeetTdt0_6BV2Int8 => "NemoParakeetTdt0_6BV2Int8",
            AsrModel::NemoParakeetTdt0_6BV3Int8 => "NemoParakeetTdt0_6BV3Int8",
            AsrModel::NemotronSpeechStreamingEn0_6B80MsInt8 => "NemotronSpeechStreamingEn0_6B80MsInt8",
            AsrModel::NemotronSpeechStreamingEn0_6B160MsInt8 => "NemotronSpeechStreamingEn0_6B160MsInt8",
            AsrModel::NemotronSpeechStreamingEn0_6B320MsInt8 => "NemotronSpeechStreamingEn0_6B320MsInt8",
            AsrModel::NemotronSpeechStreamingEn0_6B560MsInt8 => "NemotronSpeechStreamingEn0_6B560MsInt8",
            AsrModel::NemotronSpeechStreamingEn0_6B1120MsInt8 => "NemotronSpeechStreamingEn0_6B1120MsInt8",
            AsrModel::Nemotron3_5AsrStreaming0_6B80MsInt8 => "Nemotron3_5AsrStreaming0_6B80MsInt8",
            AsrModel::Nemotron3_5AsrStreaming0_6B160MsInt8 => "Nemotron3_5AsrStreaming0_6B160MsInt8",
            AsrModel::Nemotron3_5AsrStreaming0_6B320MsInt8 => "Nemotron3_5AsrStreaming0_6B320MsInt8",
            AsrModel::Nemotron3_5AsrStreaming0_6B560MsInt8 => "Nemotron3_5AsrStreaming0_6B560MsInt8",
            AsrModel::Nemotron3_5AsrStreaming0_6B1120MsInt8 => "Nemotron3_5AsrStreaming0_6B1120MsInt8",
        }
    }
}

/// The variant names of the models.
pub open spec fn spec_debug_name(model: AsrModel) -> Seq<char> {
    match model {
        AsrModel::ReazonSpeechK2V2 => "ReazonSpeechK2V2"@,
        AsrModel::NemoParakeetTdtCtc0_6BJa35000Int8 => "NemoParakeetTdtCtc0_6BJa35000Int8"@,
        AsrModel::NemoParakeetTdt0_6BV2Int8 => "NemoParakeetTdt0_6BV2Int8"@,
        AsrModel::NemoParakeetTdt0_6BV3Int8 => "NemoParakeetTdt0_6BV3Int8"@,
        AsrModel::NemotronSpeechStreamingEn0_6B80MsInt8 => "NemotronSpeechStreamingEn0_6B80MsInt8"@,
        AsrModel::NemotronSpeechStreamingEn0_6B160MsInt8 => "NemotronSpeechStreamingEn0_6B160MsInt8"@,
        AsrModel::NemotronSpeechStreamingEn0_6B320MsInt8 => "NemotronSpeechStreamingEn0_6B320MsInt8"@,
        AsrModel::NemotronSpeechStreamingEn0_6B560MsInt8 => "NemotronSpeechStreamingEn0_6B560MsInt8"@,
        AsrModel::NemotronSpeechStreamingEn0_6B1120MsInt8 => "NemotronSpeechStreamingEn0_6B1120MsInt8"@,
        AsrModel::Nemotron3_5AsrStreaming0_6B80MsInt8 => "Nemotron3_5AsrStreaming0_6B80MsInt8"@,
        AsrModel::Nemotron3_5AsrStreaming0_6B160MsInt8 => "Nemotron3_5AsrStreaming0_6B160MsInt8"@,
        AsrModel::Nemotron3_5AsrStreaming0_6B320MsInt8 => "Nemotron3_5AsrStreaming0_6B320MsInt8"@,
        AsrModel::Nemotron3_5AsrStreaming0_6B560MsInt8 => "Nemotron3_5AsrStreaming0_6B560MsInt8"@,
        AsrModel::Nemotron3_5AsrStreaming0_6B1120MsInt8 => "Nemotron3_5AsrStreaming0_6B1120MsInt8"@,
    }
}

/// Every model supports its own default precision.
pub proof fn lemma_default_precision_is_supported(model: AsrModel)
    ensures
        spec_supported_precisions(model).contains(spec_default_precision(model)),
{
    if model == AsrModel::ReazonSpeechK2V2 {
        assert(spec_supported_precisions(model)[1] == AsrPrecision::Int8Float32);
    } else {
        assert(spec_supported_precisions(model)[0] == AsrPrecision::Int8);
    }
}

/// A model either completes utterances or is interim-only, never both; exactly
/// the Nemotron streaming family is interim-only.
pub proof fn lemma_capability_partition(model: AsrModel)
    ensures
        (spec_capability(model) == AsrModelCapability::CompletionAndInterim)
            != (spec_capability(model) == AsrModelCapability::InterimOnly),
        (spec_capability(model) == AsrModelCapability::InterimOnly) == (spec_implementation(model)
            == AsrModelImplementation::Nemotron),
{
}

/// The default model chosen for a language is a model of that language, except
/// that the multilingual choice falls back to the European multilingual model.
pub proof fn lemma_default_model_language(language: AsrLanguage)
    ensures
        language != AsrLanguage::Multilingual ==> spec_language(
            match language {
                AsrLanguage::Japanese => AsrModel::ReazonSpeechK2V2,
                AsrLanguage::English => AsrModel::NemoParakeetTdt0_6BV2Int8,
                _ => AsrModel::NemoParakeetTdt0_6BV3Int8,
            },
        ) == language,
{
}

/// Only the multilingual Nemotron streaming family carries a stream language.
pub proof fn lemma_stream_language_family(model: AsrModel)
    ensures
        (spec_stream_language(model) == AsrStreamLanguage::Nemotron35Auto) == (spec_language(model)
            == AsrLanguage::Multilingual),
{
}

} // verus!
