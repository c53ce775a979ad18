//! Token-table contract of the NVIDIA Parakeet TDT exports.
use vstd::prelude::*;
use crate::model::AsrModel;
use crate::backend::token_table::{parse_blank_table, reports, spec_parse_blank_table, TokenTableError};
use crate::backend::UnsupportedModel;

verus! {

#[derive(Debug, Clone, Copy, PartialEq, Eq, Structural)]
pub enum TdtDecodingStrategy {
    Greedy,
    DefaultBeam { beam_size: usize },
}

/// Blank id, vocabulary size and joiner width of one TDT export.
#[derive(Debug, Clone, Copy, PartialEq, Eq, Structural)]
pub struct TdtContract {
    pub blank_id: usize,
    pub vocab_size: usize,
    pub joiner_width: usize,
}

impl TdtContract {
    pub fn for_model(model: AsrModel) -> (r: Result<Self, UnsupportedModel>)
        ensures
            model == AsrModel::NemoParakeetTdt0_6BV2Int8 ==> r == Ok::<TdtContract, UnsupportedModel>(
                TdtContract { blank_id: 1024, vocab_size: 1024, joiner_width: 1030 },
            ),
            model == AsrModel::NemoParakeetTdt0_6BV3Int8 ==> r == Ok::<TdtContract, UnsupportedModel>(
                TdtContract { blank_id: 8192, vocab_size: 8192, joiner_width: 8198 },
            ),
            model != AsrModel::NemoParakeetTdt0_6BV2Int8 && model != AsrModel::NemoParakeetTdt0_6BV3Int8
                ==> r == Err::<TdtContract, UnsupportedModel>(UnsupportedModel { model }),
    {
        match model {
            AsrModel::NemoParakeetTdt0_6BV2Int8 => Ok(
                TdtContract { blank_id: 1_024, vocab_size: 1_024, joiner_width: 1_030 },
            ),
            AsrModel::NemoParakeetTdt0_6BV3Int8 => Ok(
                TdtContract { blank_id: 8_192, vocab_size: 8_192, joiner_width: 8_198 },
            ),
            _ => Err(UnsupportedModel { model }),
        }
    }
}

/// Parses `tokens.txt` of a TDT export: ids `0..=blank_id`, each once, with
/// `<blk>` at the blank id.
pub fn parse_tokens(contents: &str, contract: TdtContract) -> (r: Result<Vec<String>, TokenTableError>)
    requires
        contract.blank_id < usize::MAX,
    ensures
        reports(r, spec_parse_blank_table(contents@, contract.blank_id as nat + 1, contract.blank_id)),
{
    parse_blank_table(contents, contract.blank_id + 1, contract.blank_id)
}

/// Both TDT exports put blank right after the vocabulary and append the five
/// duration logits to the joiner row.
pub proof fn lemma_tdt_joiner_layout(model: AsrModel)
    requires
        model == AsrModel::NemoParakeetTdt0_6BV2Int8 || model == AsrModel::NemoParakeetTdt0_6BV3Int8,
    ensures
        ({
            let c = if model == AsrModel::NemoParakeetTdt0_6BV2Int8 {
                TdtContract { blank_id: 1024, vocab_size: 1024, joiner_width: 1030 }
            } else {
                TdtContract { blank_id: 8192, vocab_size: 8192, joiner_width: 8198 }
            };
            c.blank_id == c.vocab_size && c.joiner_width == c.vocab_size + 1 + 5
        }),
{
}

} // verus!
