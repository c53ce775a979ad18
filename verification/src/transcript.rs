//! Character ranges of recognized tokens inside the trimmed transcript text.
use vstd::prelude::*;
use std::ops::Range;
use crate::text::{
    chars_of, concat_views, leading_whitespace, leading_whitespace_count,
    lemma_leading_whitespace_bound, lemma_trailing_whitespace_bound, trailing_whitespace,
    trailing_whitespace_count,
};

verus! {

/// Character offset at which token `index` starts in the joined token text.
pub open spec fn token_start(tokens: Seq<String>, index: int) -> int {
    concat_views(tokens.take(index)).len() as int
}

/// The character range of token `index` relative to the trimmed joined text,
/// or `None` when the token holds only trimmed whitespace.
pub open spec fn spec_token_range(tokens: Seq<String>, index: int) -> Option<Range<usize>> {
    let joined = concat_views(tokens);
    let trimmed_start = leading_whitespace(joined) as int;
    let trimmed_end = joined.len() - trailing_whitespace(joined);
    let start = token_start(tokens, index);
    let end = start + tokens[index]@.len();
    let visible_start = if start > trimmed_start { start } else { trimmed_start };
    let visible_end = if end < trimmed_end { end } else { trimmed_end };
    if visible_start < visible_end {
        Some(((visible_start - trimmed_start) as usize)..((visible_end - trimmed_start) as usize))
    } else {
        None
    }
}

pub proof fn lemma_concat_push(tokens: Seq<String>, index: int)
    requires
        0 <= index < tokens.len(),
    ensures
        concat_views(tokens.take(index + 1)) == concat_views(tokens.take(index)) + tokens[index]@,
{
    assert(tokens.take(index + 1).drop_last() =~= tokens.take(index));
}

/// Joins the characters of every token.
pub(crate) fn joined_chars(token_texts: &[String]) -> (r: Vec<char>)
    ensures
        r@ == concat_views(token_texts@),
{
    let mut joined: Vec<char> = Vec::new();
    let mut index: usize = 0;
    while index < token_texts.len()
        invariant
            index <= token_texts.len(),
            joined@ == concat_views(token_texts@.take(index as int)),
        decreases token_texts.len() - index,
    {
        let token = chars_of(token_texts[index].as_str());
        let mut k: usize = 0;
        let ghost before = joined@;
        while k < token.len()
            invariant
                k <= token.len(),
                joined@ == before + token@.take(k as int),
            decreases token.len() - k,
        {
            joined.push(token[k]);
            assert(token@.take(k + 1) =~= token@.take(k as int).push(token@[k as int]));
            assert(before + token@.take(k + 1) =~= (before + token@.take(k as int)).push(token@[k as int]));
            k = k + 1;
        }
        assert(token@.take(token.len() as int) =~= token@);
        proof {
            lemma_concat_push(token_texts@, index as int);
        }
        index = index + 1;
    }
    assert(token_texts@.take(token_texts.len() as int) =~= token_texts@);
    joined
}

/// For each token, its character range inside the whitespace-trimmed text
/// that the tokens join into.
pub fn token_char_ranges_relative_to_trimmed_text(token_texts: &[String]) -> (r: Vec<
    Option<Range<usize>>,
>)
    ensures
        r.len() == token_texts.len(),
        forall|i: int| 0 <= i < r.len() ==> #[trigger] r@[i] == spec_token_range(token_texts@, i),
{
    let joined = joined_chars(token_texts);
    let trimmed_start = leading_whitespace_count(&joined);
    let trailing = trailing_whitespace_count(&joined);
    proof {
        lemma_leading_whitespace_bound(joined@);
        lemma_trailing_whitespace_bound(joined@);
    }
    let trimmed_end = joined.len() - trailing;
    let mut ranges: Vec<Option<Range<usize>>> = Vec::new();
    let mut cursor: usize = 0;
    let mut index: usize = 0;
    while index < token_texts.len()
        invariant
            index <= token_texts.len(),
            joined@ == concat_views(token_texts@),
            trimmed_start == leading_whitespace(joined@),
            trimmed_end == joined@.len() - trailing_whitespace(joined@),
            trimmed_start <= joined@.len(),
            cursor == token_start(token_texts@, index as int),
            cursor <= joined@.len(),
            ranges.len() == index,
            forall|i: int| 0 <= i < index ==> #[trigger] ranges@[i] == spec_token_range(token_texts@, i),
        decreases token_texts.len() - index,
    {
        let count = token_texts[index].as_str().unicode_len();
        proof {
            lemma_concat_push(token_texts@, index as int);
            lemma_concat_prefix_len(token_texts@, index as int + 1);
            assert(count == token_texts@[index as int]@.len());
            assert(token_start(token_texts@, index as int + 1) == cursor + count);
            assert(cursor + count <= joined@.len());
            assert(joined@.len() == joined.len());
        }
        let start = cursor;
        let end = start + count;
        cursor = end;
        let visible_start = if start > trimmed_start { start } else { trimmed_start };
        let visible_end = if end < trimmed_end { end } else { trimmed_end };
        if visible_start < visible_end {
            ranges.push(Some((visible_start - trimmed_start)..(visible_end - trimmed_start)));
        } else {
            ranges.push(None);
        }
        index = index + 1;
    }
    ranges
}

/// The joined text of a prefix of the tokens is no longer than the whole.
pub proof fn lemma_concat_prefix_len(tokens: Seq<String>, index: int)
    requires
        0 <= index <= tokens.len(),
    ensures
        concat_views(tokens.take(index)).len() <= concat_views(tokens).len(),
    decreases tokens.len() - index,
{
    if index < tokens.len() {
        lemma_concat_push(tokens, index);
        lemma_concat_prefix_len(tokens, index + 1);
    } else {
        assert(tokens.take(index) =~= tokens);
    }
}

/// Every reported range is non-empty, lies inside the trimmed text and inside
/// the token's own characters, and ranges of later tokens start no earlier.
pub proof fn lemma_token_ranges_are_ordered_and_inside_the_text(
    tokens: Seq<String>,
    i: int,
    j: int,
)
    requires
        0 <= i < j < tokens.len(),
        concat_views(tokens).len() <= usize::MAX,
    ensures
        spec_token_range(tokens, i) matches Some(r) ==> r.start < r.end && r.end as int
            + leading_whitespace(concat_views(tokens)) <= concat_views(tokens).len()
            - trailing_whitespace(concat_views(tokens)),
        (spec_token_range(tokens, i) is Some && spec_token_range(tokens, j) is Some)
            ==> spec_token_range(tokens, i)->0.end <= spec_token_range(tokens, j)->0.start,
{
    lemma_token_start_monotone(tokens, i + 1, j);
    lemma_concat_push(tokens, i);
    lemma_concat_push(tokens, j);
    lemma_concat_prefix_len(tokens, i + 1);
    lemma_concat_prefix_len(tokens, j + 1);
    lemma_leading_whitespace_bound(concat_views(tokens));
    lemma_trailing_whitespace_bound(concat_views(tokens));
}

pub proof fn lemma_token_start_monotone(tokens: Seq<String>, a: int, b: int)
    requires
        0 <= a <= b <= tokens.len(),
    ensures
        token_start(tokens, a) <= token_start(tokens, b),
    decreases b - a,
{
    if a < b {
        lemma_concat_push(tokens, b - 1);
        lemma_token_start_monotone(tokens, a, b - 1);
    }
}

} // verus!
