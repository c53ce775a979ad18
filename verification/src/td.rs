//! Turn-boundary candidates found in recognized text.
use vstd::prelude::*;
use std::ops::Range;
use crate::model::AsrLanguage;
use crate::text::{chars_of, string_of};

verus! {

#[derive(Debug, Clone, Copy, PartialEq, Eq, Structural)]
pub enum GrammarBoundaryClass {
    StrongEnd,
    PredicateEnd,
    NormalEnd,
    Reject,
    ClauseWeak,
}

/// A point where a turn may end, in transcript characters and audio samples.
#[derive(Debug, Clone, PartialEq, Eq, Structural)]
pub struct TurnBoundaryCandidate {
    pub char_end: usize,
    pub sample_end: usize,
    pub prefix_audio_end: usize,
    pub suffix_audio_start: usize,
    pub class: GrammarBoundaryClass,
}

/// Whether shifting `candidate` by the offsets stays within `usize`.
pub open spec fn offset_fits(candidate: TurnBoundaryCandidate, char_offset: int, audio_offset: int) -> bool {
    &&& char_offset + candidate.char_end <= usize::MAX
    &&& audio_offset + candidate.sample_end <= usize::MAX
    &&& audio_offset + candidate.prefix_audio_end <= usize::MAX
    &&& audio_offset + candidate.suffix_audio_start <= usize::MAX
}

pub open spec fn spec_offset_by(
    candidate: TurnBoundaryCandidate,
    char_offset: int,
    audio_offset: int,
) -> TurnBoundaryCandidate {
    TurnBoundaryCandidate {
        char_end: (char_offset + candidate.char_end) as usize,
        sample_end: (audio_offset + candidate.sample_end) as usize,
        prefix_audio_end: (audio_offset + candidate.prefix_audio_end) as usize,
        suffix_audio_start: (audio_offset + candidate.suffix_audio_start) as usize,
        class: candidate.class,
    }
}

impl TurnBoundaryCandidate {
    /// Moves a candidate found in a text/audio segment into the coordinates of
    /// the whole stream.
    pub fn offset_by(self, char_offset: usize, audio_offset: usize) -> (r: Self)
        requires
            offset_fits(self, char_offset as int, audio_offset as int),
        ensures
            r == spec_offset_by(self, char_offset as int, audio_offset as int),
    {
        TurnBoundaryCandidate {
            char_end: char_offset + self.char_end,
            sample_end: audio_offset + self.sample_end,
            prefix_audio_end: audio_offset + self.prefix_audio_end,
            suffix_audio_start: audio_offset + self.suffix_audio_start,
            class: self.class,
        }
    }
}

/// Shifting twice is shifting once by the summed offsets.
pub proof fn lemma_offset_by_composes(
    candidate: TurnBoundaryCandidate,
    first_chars: int,
    first_audio: int,
    second_chars: int,
    second_audio: int,
)
    requires
        0 <= first_chars,
        0 <= first_audio,
        0 <= second_chars,
        0 <= second_audio,
        offset_fits(candidate, first_chars + second_chars, first_audio + second_audio),
    ensures
        offset_fits(candidate, first_chars, first_audio),
        offset_fits(spec_offset_by(candidate, first_chars, first_audio), second_chars, second_audio),
        spec_offset_by(spec_offset_by(candidate, first_chars, first_audio), second_chars, second_audio)
            == spec_offset_by(candidate, first_chars + second_chars, first_audio + second_audio),
{
}

/// A zero offset leaves a candidate unchanged.
pub proof fn lemma_offset_by_zero(candidate: TurnBoundaryCandidate)
    ensures
        spec_offset_by(candidate, 0, 0) == candidate,
{
}

/// The characters `range.start..range.end` of `text`, clipped to its length;
/// an inverted range is empty.
pub open spec fn spec_slice_chars(text: Seq<char>, start: int, end: int) -> Seq<char> {
    let from = if start < text.len() { start } else { text.len() as int };
    let count = if end > start { end - start } else { 0 };
    let to = if from + count < text.len() { from + count } else { text.len() as int };
    text.subrange(from, to)
}

pub fn slice_chars(text: &str, range: Range<usize>) -> (r: String)
    ensures
        r@ == spec_slice_chars(text@, range.start as int, range.end as int),
{
    let chars = chars_of(text);
    let from = if range.start < chars.len() { range.start } else { chars.len() };
    let count = if range.end > range.start { range.end - range.start } else { 0 };
    let to = if count < chars.len() - from { from + count } else { chars.len() };
    let mut out: Vec<char> = Vec::new();
    let mut index = from;
    while index < to
        invariant
            from <= index <= to <= chars.len(),
            out@ == chars@.subrange(from as int, index as int),
        decreases to - index,
    {
        out.push(chars[index]);
        assert(chars@.subrange(from as int, index + 1) =~= chars@.subrange(from as int, index as int).push(chars@[index as int]));
        index = index + 1;
    }
    string_of(&out)
}


/// Whether `c` ends a sentence in the script of `language`.
pub open spec fn is_sentence_punctuation(language: AsrLanguage, c: char) -> bool {
    match language {
        AsrLanguage::Japanese => c == '。' || c == '？' || c == '！',
        _ => c == '.' || c == '?' || c == '!',
    }
}

fn sentence_punctuation(language: AsrLanguage, c: char) -> (r: bool)
    ensures
        r == is_sentence_punctuation(language, c),
{
    match language {
        AsrLanguage::Japanese => c == '。' || c == '？' || c == '！',
        _ => c == '.' || c == '?' || c == '!',
    }
}

/// The character positions just after the sentence punctuation among the
/// first `count` characters of `text`, ascending.
pub open spec fn punctuation_ends(language: AsrLanguage, text: Seq<char>, count: int) -> Seq<usize>
    decreases count,
{
    if count <= 0 {
        Seq::empty()
    } else {
        punctuation_ends(language, text, count - 1) + if is_sentence_punctuation(language, text[count - 1]) {
            seq![count as usize]
        } else {
            Seq::empty()
        }
    }
}

proof fn lemma_punctuation_ends_prefix(language: AsrLanguage, text: Seq<char>, count: int)
    requires
        0 <= count <= text.len(),
        text.len() <= usize::MAX,
    ensures
        ({
            let ends = punctuation_ends(language, text, count);
            &&& forall|p: usize|
                #[trigger] ends.contains(p) <==> (1 <= p <= count && is_sentence_punctuation(
                    language,
                    text[p - 1],
                ))
            &&& forall|i: int, j: int| 0 <= i < j < ends.len() ==> ends[i] < ends[j]
            &&& forall|i: int| 0 <= i < ends.len() ==> 1 <= #[trigger] ends[i] <= count
        }),
    decreases count,
{
    if count > 0 {
        lemma_punctuation_ends_prefix(language, text, count - 1);
        let earlier = punctuation_ends(language, text, count - 1);
        let ends = punctuation_ends(language, text, count);
        if is_sentence_punctuation(language, text[count - 1]) {
            assert(ends =~= earlier.push(count as usize));
            assert forall|p: usize| #[trigger] ends.contains(p) <==> (1 <= p <= count && is_sentence_punctuation(
                language,
                text[p - 1],
            )) by {
                if ends.contains(p) && p != count {
                    let i = choose|i: int| 0 <= i < ends.len() && ends[i] == p;
                    assert(i != earlier.len());
                    assert(earlier[i] == p);
                    assert(earlier.contains(p));
                }
                if 1 <= p < count && is_sentence_punctuation(language, text[p - 1]) {
                    assert(earlier.contains(p));
                    let i = choose|i: int| 0 <= i < earlier.len() && earlier[i] == p;
                    assert(ends[i] == p);
                }
                if p == count {
                    assert(ends[ends.len() - 1] == p);
                }
            }
            assert forall|i: int, j: int| 0 <= i < j < ends.len() implies ends[i] < ends[j] by {
                if j < earlier.len() {
                    assert(earlier[i] < earlier[j]);
                } else {
                    assert(1 <= earlier[i] <= count - 1);
                }
            }
            assert forall|i: int| 0 <= i < ends.len() implies 1 <= #[trigger] ends[i] <= count by {
                if i < earlier.len() {
                    assert(earlier[i] == ends[i]);
                }
            }
        } else {
            assert(ends =~= earlier);
        }
    }
}

/// Boundaries fall exactly after the sentence-ending marks of the
/// language's script, in ascending order: `。`, `？` and `！` for Japanese,
/// `.`, `?` and `!` for the other languages.
pub proof fn lemma_sentence_punctuation_boundaries(language: AsrLanguage, text: Seq<char>)
    requires
        text.len() <= usize::MAX,
    ensures
        ({
            let ends = punctuation_ends(language, text, text.len() as int);
            &&& forall|p: usize|
                #[trigger] ends.contains(p) <==> (1 <= p <= text.len() && if language is Japanese {
                    text[p - 1] == '。' || text[p - 1] == '？' || text[p - 1] == '！'
                } else {
                    text[p - 1] == '.' || text[p - 1] == '?' || text[p - 1] == '!'
                })
            &&& forall|i: int, j: int| 0 <= i < j < ends.len() ==> ends[i] < ends[j]
        }),
{
    lemma_punctuation_ends_prefix(language, text, text.len() as int);
}

/// The character end of every sentence-ending punctuation mark of `text`:
/// the boundary offsets that need no morphology model.
pub fn sentence_punctuation_char_ends(language: AsrLanguage, text: &str) -> (r: Vec<usize>)
    ensures
        r@ == punctuation_ends(language, text@, text@.len() as int),
{
    let chars = chars_of(text);
    let mut ends: Vec<usize> = Vec::new();
    let mut index: usize = 0;
    while index < chars.len()
        invariant
            index <= chars.len(),
            chars@ == text@,
            ends@ == punctuation_ends(language, text@, index as int),
        decreases chars.len() - index,
    {
        if sentence_punctuation(language, chars[index]) {
            ends.push(index + 1);
        }
        proof {
            let e = punctuation_ends(language, text@, index as int);
            assert(e + Seq::<usize>::empty() =~= e);
        }
        index = index + 1;
    }
    ends
}

/// Whether range `r` exists and reaches character `char_end`.
pub open spec fn reaches(r: Option<Range<usize>>, char_end: usize) -> bool {
    match r {
        Some(range) => range.end >= char_end,
        None => false,
    }
}

/// The first token whose character range reaches `char_end`: the token
/// whose timing places a boundary at that character.
pub fn first_token_reaching(char_ranges: &[Option<Range<usize>>], char_end: usize) -> (r: Option<usize>)
    ensures
        match r {
            Some(i) => i < char_ranges.len() && reaches(char_ranges@[i as int], char_end) && forall|j: int|
                0 <= j < i ==> !reaches(#[trigger] char_ranges@[j], char_end),
            None => forall|j: int| 0 <= j < char_ranges.len() ==> !reaches(#[trigger] char_ranges@[j], char_end),
        },
{
    let mut index: usize = 0;
    while index < char_ranges.len()
        invariant
            index <= char_ranges.len(),
            forall|j: int| 0 <= j < index ==> !reaches(#[trigger] char_ranges@[j], char_end),
        decreases char_ranges.len() - index,
    {
        let found = match &char_ranges[index] {
            Some(range) => range.end >= char_end,
            None => false,
        };
        if found {
            return Some(index);
        }
        index = index + 1;
    }
    None
}

/// Candidate `c` is the first of `all` with its character end.
pub open spec fn first_with_char_end(all: Seq<TurnBoundaryCandidate>, c: TurnBoundaryCandidate) -> bool {
    exists|j: int|
        0 <= j < all.len() && all[j] == c && forall|k: int| 0 <= k < j ==> (#[trigger] all[k]).char_end != c.char_end
}

/// Inserting a candidate between smaller and larger character ends keeps the
/// list strictly ordered.
proof fn lemma_insert_keeps_order(
    before: Seq<TurnBoundaryCandidate>,
    w: Seq<TurnBoundaryCandidate>,
    pos: int,
    c: TurnBoundaryCandidate,
)
    requires
        0 <= pos <= before.len(),
        w == before.insert(pos, c),
        forall|a: int, b: int| 0 <= a < b < before.len() ==> before[a].char_end < before[b].char_end,
        forall|a: int| 0 <= a < pos ==> before[a].char_end < c.char_end,
        pos < before.len() ==> c.char_end < before[pos].char_end,
    ensures
        forall|a: int, b: int| 0 <= a < b < w.len() ==> w[a].char_end < w[b].char_end,
{
    assert forall|a: int, b: int| 0 <= a < b < w.len() implies w[a].char_end < w[b].char_end by {
        if b < pos {
            assert(w[a] == before[a] && w[b] == before[b]);
        } else if b == pos {
            assert(w[a] == before[a]);
        } else if a < pos {
            assert(w[a] == before[a] && w[b] == before[b - 1]);
            if b - 1 > pos {
                assert(before[pos].char_end < before[b - 1].char_end);
            }
        } else if a == pos {
            assert(w[b] == before[b - 1]);
            if b - 1 > pos {
                assert(before[pos].char_end < before[b - 1].char_end);
            }
        } else {
            assert(w[a] == before[a - 1] && w[b] == before[b - 1]);
        }
    }
}

/// Orders candidates by character end and keeps, for each end, the first
/// candidate given: how boundaries found by several detectors are merged.
#[verifier::rlimit(60)]
pub fn sort_and_dedup_by_char_end(candidates: Vec<TurnBoundaryCandidate>) -> (r: Vec<TurnBoundaryCandidate>)
    ensures
        forall|a: int, b: int| 0 <= a < b < r@.len() ==> r@[a].char_end < r@[b].char_end,
        forall|i: int| 0 <= i < r@.len() ==> first_with_char_end(candidates@, #[trigger] r@[i]),
        forall|j: int|
            0 <= j < candidates@.len() ==> exists|i: int|
                0 <= i < r@.len() && (#[trigger] r@[i]).char_end == (#[trigger] candidates@[j]).char_end,
{
    let mut kept: Vec<TurnBoundaryCandidate> = Vec::new();
    let mut j: usize = 0;
    while j < candidates.len()
        invariant
            j <= candidates.len(),
            forall|a: int, b: int| 0 <= a < b < kept@.len() ==> kept@[a].char_end < kept@[b].char_end,
            forall|i: int| 0 <= i < kept@.len() ==> first_with_char_end(candidates@, #[trigger] kept@[i]),
            forall|m: int|
                0 <= m < j ==> exists|i: int|
                    0 <= i < kept@.len() && (#[trigger] kept@[i]).char_end == (#[trigger] candidates@[m]).char_end,
        decreases candidates.len() - j,
    {
        let candidate = TurnBoundaryCandidate {
            char_end: candidates[j].char_end,
            sample_end: candidates[j].sample_end,
            prefix_audio_end: candidates[j].prefix_audio_end,
            suffix_audio_start: candidates[j].suffix_audio_start,
            class: candidates[j].class,
        };
        let key = candidate.char_end;
        let mut pos: usize = 0;
        while pos < kept.len() && kept[pos].char_end < key
            invariant
                pos <= kept.len(),
                forall|a: int| 0 <= a < pos ==> kept@[a].char_end < key,
            decreases kept.len() - pos,
        {
            pos = pos + 1;
        }
        let ghost before = kept@;
        if pos < kept.len() && kept[pos].char_end == key {
            proof {
                assert(exists|i: int| 0 <= i < kept@.len() && (#[trigger] kept@[i]).char_end == candidates@[j as int].char_end) by {
                    assert(kept@[pos as int].char_end == candidates@[j as int].char_end);
                }
            }
        } else {
            proof {
                assert forall|i: int| 0 <= i < before.len() implies before[i].char_end != key by {
                    if i >= pos {
                        if i > pos {
                            assert(before[pos as int].char_end < before[i].char_end);
                        }
                    }
                }
                assert forall|k: int| 0 <= k < j implies (#[trigger] candidates@[k]).char_end != key by {
                    let i = choose|i: int| 0 <= i < before.len() && (#[trigger] before[i]).char_end == candidates@[k].char_end;
                }
                assert(first_with_char_end(candidates@, candidates@[j as int]));
            }
            kept.insert(pos, candidate);
            proof {
                let w = kept@;
                lemma_insert_keeps_order(before, w, pos as int, candidate);
                assert forall|i: int| 0 <= i < w.len() implies first_with_char_end(candidates@, #[trigger] w[i]) by {
                    if i < pos {
                        assert(w[i] == before[i]);
                    } else if i > pos {
                        assert(w[i] == before[i - 1]);
                    }
                }
                assert forall|m: int| 0 <= m < j + 1 implies exists|i: int|
                    0 <= i < w.len() && (#[trigger] w[i]).char_end == (#[trigger] candidates@[m]).char_end by {
                    if m < j {
                        let i = choose|i: int| 0 <= i < before.len() && (#[trigger] before[i]).char_end == candidates@[m].char_end;
                        if i < pos {
                            assert(w[i] == before[i]);
                        } else {
                            assert(w[i + 1] == before[i]);
                        }
                    } else {
                        assert(w[pos as int].char_end == candidates@[m].char_end);
                    }
                }
            }
        }
        j = j + 1;
    }
    kept
}

} // verus!
