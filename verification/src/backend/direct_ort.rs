//! Token-table contract of the NVIDIA CTC export.
use vstd::prelude::*;
use crate::backend::token_table::{parse_blank_table, reports, spec_parse_blank_table, TokenTableError};

verus! {

/// Token classes of the CTC export, blank included.
pub const CTC_VOCAB_SIZE: usize = 3_073;
/// Token id of the CTC blank.
pub const CTC_BLANK_ID: usize = 3_072;

/// Parses `tokens.txt` of the CTC export: every id below the vocabulary size
/// once, with `<blk>` at the blank id.
pub fn parse_tokens(contents: &str) -> (r: Result<Vec<String>, TokenTableError>)
    ensures
        reports(r, spec_parse_blank_table(contents@, CTC_VOCAB_SIZE as nat, CTC_BLANK_ID)),
{
    parse_blank_table(contents, CTC_VOCAB_SIZE, CTC_BLANK_ID)
}

} // verus!
