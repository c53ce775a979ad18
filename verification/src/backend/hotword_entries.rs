//! Turning registered hotword entries into the token paths of a model.
use vstd::prelude::*;
use crate::backend::parakeet::{
    paths_view, spec_tokenize_parakeet_hotword_text, tokenize_parakeet_hotword_text,
};
use crate::backend::reazon::{
    spec_to_katakana, spec_tokenize_reazon_hotword_text, to_katakana, tokenize_reazon_hotword_text,
    HotwordTextError,
};
use crate::decoder::hotword::{
    normalize_reading, spec_normalize_reading, HotwordEntry, HotwordPathKind, HotwordTokenPath,
};
use crate::text::{chars_of, trim, trimmed_chars};

verus! {

/// Why the hotword entries of a request were refused.
#[derive(Debug, Clone, Copy, PartialEq, Eq, Structural)]
pub enum HotwordEntryError {
    /// A surface is empty or only whitespace.
    EmptySurface,
    /// A reading normalizes to nothing but whitespace.
    EmptyReading,
    /// A surface (of an entry without readings) or a reading cannot be
    /// spelled with the model's tokens.
    Text(HotwordTextError),
}

/// Which model's tokenizer spells the hotword text.
#[derive(Debug, Clone, Copy, PartialEq, Eq, Structural)]
pub enum HotwordTokenizer {
    /// One `ReazonSpeech` token per character.
    Reazon,
    /// Up to eight Japanese Parakeet segmentations.
    Parakeet,
}

/// The token paths of one hotword text.
pub open spec fn spec_tokenize_variants(
    tokenizer: HotwordTokenizer,
    text: Seq<char>,
    vocabulary: Seq<String>,
    kind: HotwordPathKind,
) -> Result<Seq<Seq<usize>>, HotwordTextError> {
    match tokenizer {
        HotwordTokenizer::Reazon => match spec_tokenize_reazon_hotword_text(text, vocabulary, kind) {
            Ok(tokens) => Ok(seq![tokens]),
            Err(e) => Err(e),
        },
        HotwordTokenizer::Parakeet => spec_tokenize_parakeet_hotword_text(text, vocabulary, kind),
    }
}

/// A token path as the specification sees it: tokens, entry, surface, kind.
pub type PathView = (Seq<usize>, usize, Seq<char>, HotwordPathKind);

pub open spec fn path_view(path: HotwordTokenPath) -> PathView {
    (path.tokens@, path.entry_id, path.surface@, path.kind)
}

pub open spec fn path_views(paths: Seq<HotwordTokenPath>) -> Seq<PathView> {
    paths.map_values(|path: HotwordTokenPath| path_view(path))
}

/// Each token path labelled with its entry, surface and kind.
pub open spec fn labeled(
    paths: Seq<Seq<usize>>,
    entry_id: usize,
    surface: Seq<char>,
    kind: HotwordPathKind,
) -> Seq<PathView> {
    paths.map_values(|tokens: Seq<usize>| (tokens, entry_id, surface, kind))
}

/// The paths of one reading: its hiragana normal form, and its katakana
/// form when that differs.
pub open spec fn reading_paths(
    tokenizer: HotwordTokenizer,
    reading: Seq<char>,
    entry_id: usize,
    surface: Seq<char>,
    vocabulary: Seq<String>,
) -> Result<Seq<PathView>, HotwordEntryError> {
    let normalized = spec_normalize_reading(reading);
    if trim(normalized).len() == 0 {
        Err(HotwordEntryError::EmptyReading)
    } else {
        match spec_tokenize_variants(tokenizer, normalized, vocabulary, HotwordPathKind::Reading) {
            Err(e) => Err(HotwordEntryError::Text(e)),
            Ok(hiragana) => {
                let katakana = spec_to_katakana(normalized);
                let first = labeled(hiragana, entry_id, surface, HotwordPathKind::Reading);
                if katakana == normalized {
                    Ok(first)
                } else {
                    match spec_tokenize_variants(
                        tokenizer,
                        katakana,
                        vocabulary,
                        HotwordPathKind::Reading,
                    ) {
                        Err(e) => Err(HotwordEntryError::Text(e)),
                        Ok(more) => Ok(
                            first + labeled(more, entry_id, surface, HotwordPathKind::Reading),
                        ),
                    }
                }
            },
        }
    }
}

/// The paths of the first `count` readings, or the first refusal.
pub open spec fn readings_paths(
    tokenizer: HotwordTokenizer,
    readings: Seq<String>,
    count: int,
    entry_id: usize,
    surface: Seq<char>,
    vocabulary: Seq<String>,
) -> Result<Seq<PathView>, HotwordEntryError>
    decreases count,
{
    if count <= 0 {
        Ok(Seq::empty())
    } else {
        match readings_paths(tokenizer, readings, count - 1, entry_id, surface, vocabulary) {
            Err(e) => Err(e),
            Ok(before) => match reading_paths(
                tokenizer,
                readings[count - 1]@,
                entry_id,
                surface,
                vocabulary,
            ) {
                Err(e) => Err(e),
                Ok(more) => Ok(before + more),
            },
        }
    }
}

/// The paths of one entry: its surface (skipped when it cannot be spelled
/// and the entry has readings), then each reading in order.
pub open spec fn entry_paths(
    tokenizer: HotwordTokenizer,
    entry: HotwordEntry,
    entry_id: usize,
    vocabulary: Seq<String>,
) -> Result<Seq<PathView>, HotwordEntryError> {
    let surface = entry.surface@;
    if trim(surface).len() == 0 {
        Err(HotwordEntryError::EmptySurface)
    } else {
        let surface_paths = match spec_tokenize_variants(
            tokenizer,
            surface,
            vocabulary,
            HotwordPathKind::Surface,
        ) {
            Ok(paths) => Ok(labeled(paths, entry_id, surface, HotwordPathKind::Surface)),
            Err(e) => if entry.readings.len() == 0 {
                Err(HotwordEntryError::Text(e))
            } else {
                Ok(Seq::empty())
            },
        };
        match surface_paths {
            Err(e) => Err(e),
            Ok(first) => match readings_paths(
                tokenizer,
                entry.readings@,
                entry.readings.len() as int,
                entry_id,
                surface,
                vocabulary,
            ) {
                Err(e) => Err(e),
                Ok(rest) => Ok(first + rest),
            },
        }
    }
}

/// The paths of the first `count` entries, or the first refusal.
pub open spec fn entries_paths(
    tokenizer: HotwordTokenizer,
    entries: Seq<HotwordEntry>,
    count: int,
    vocabulary: Seq<String>,
) -> Result<Seq<PathView>, HotwordEntryError>
    decreases count,
{
    if count <= 0 {
        Ok(Seq::empty())
    } else {
        match entries_paths(tokenizer, entries, count - 1, vocabulary) {
            Err(e) => Err(e),
            Ok(before) => match entry_paths(
                tokenizer,
                entries[count - 1],
                (count - 1) as usize,
                vocabulary,
            ) {
                Err(e) => Err(e),
                Ok(more) => Ok(before + more),
            },
        }
    }
}

/// The outcome `outcome` as the executable result `r` reports it.
pub open spec fn reports_paths(
    r: Result<Vec<HotwordTokenPath>, HotwordEntryError>,
    outcome: Result<Seq<PathView>, HotwordEntryError>,
) -> bool {
    match outcome {
        Ok(paths) => r is Ok && path_views(r->Ok_0@) == paths,
        Err(e) => r == Err::<Vec<HotwordTokenPath>, HotwordEntryError>(e),
    }
}

fn tokenize_variants(
    tokenizer: HotwordTokenizer,
    text: &str,
    vocabulary: &[String],
    kind: HotwordPathKind,
) -> (r: Result<Vec<Vec<usize>>, HotwordTextError>)
    ensures
        match spec_tokenize_variants(tokenizer, text@, vocabulary@, kind) {
            Ok(paths) => r is Ok && paths_view(r->Ok_0@) == paths,
            Err(e) => r == Err::<Vec<Vec<usize>>, HotwordTextError>(e),
        },
{
    match tokenizer {
        HotwordTokenizer::Reazon => match tokenize_reazon_hotword_text(text, vocabulary, kind) {
            Ok(tokens) => {
                let ghost t = tokens@;
                let mut paths: Vec<Vec<usize>> = Vec::new();
                paths.push(tokens);
                assert(paths_view(paths@) =~= seq![t]);
                Ok(paths)
            },
            Err(e) => Err(e),
        },
        HotwordTokenizer::Parakeet => tokenize_parakeet_hotword_text(text, vocabulary, kind),
    }
}

/// Appends each token path, labelled with its entry, surface and kind.
fn push_labeled(
    out: &mut Vec<HotwordTokenPath>,
    paths: Vec<Vec<usize>>,
    entry_id: usize,
    surface: &String,
    kind: HotwordPathKind,
)
    ensures
        path_views(final(out)@) == path_views(old(out)@) + labeled(
            paths_view(paths@),
            entry_id,
            surface@,
            kind,
        ),
{
    let ghost start = path_views(out@);
    let ghost all = paths_view(paths@);
    let total = paths.len();
    let rest = paths;
    let mut index: usize = 0;
    while index < total
        invariant
            index <= total,
            total == all.len(),
            rest.len() == total,
            paths_view(rest@) == all,
            path_views(out@) == start + labeled(all.take(index as int), entry_id, surface@, kind),
        decreases total - index,
    {
        let mut copy: Vec<usize> = Vec::new();
        let mut j: usize = 0;
        while j < rest[index].len()
            invariant
                j <= rest@[index as int].len(),
                index < rest.len(),
                copy@ == rest@[index as int]@.take(j as int),
            decreases rest@[index as int].len() - j,
        {
            copy.push(rest[index][j]);
            assert(rest@[index as int]@.take(j + 1) =~= rest@[index as int]@.take(j as int).push(
                rest@[index as int]@[j as int],
            ));
            j = j + 1;
        }
        assert(rest@[index as int]@.take(j as int) =~= rest@[index as int]@);
        let ghost before = out@;
        out.push(HotwordTokenPath { tokens: copy, entry_id, surface: surface.clone(), kind });
        assert(path_views(out@) =~= path_views(before).push(
            (all[index as int], entry_id, surface@, kind),
        ));
        assert(labeled(all.take(index + 1), entry_id, surface@, kind) =~= labeled(
            all.take(index as int),
            entry_id,
            surface@,
            kind,
        ).push((all[index as int], entry_id, surface@, kind)));
        index = index + 1;
    }
    assert(all.take(total as int) =~= all);
}

fn reading_paths_exec(
    tokenizer: HotwordTokenizer,
    reading: &String,
    entry_id: usize,
    surface: &String,
    vocabulary: &[String],
    out: &mut Vec<HotwordTokenPath>,
) -> (r: Result<(), HotwordEntryError>)
    ensures
        match reading_paths(tokenizer, reading@, entry_id, surface@, vocabulary@) {
            Ok(paths) => r is Ok && path_views(final(out)@) == path_views(old(out)@) + paths,
            Err(e) => r == Err::<(), HotwordEntryError>(e),
        },
{
    let normalized = normalize_reading(reading.as_str());
    let chars = chars_of(normalized.as_str());
    if trimmed_chars(&chars).len() == 0 {
        return Err(HotwordEntryError::EmptyReading);
    }
    let hiragana = match tokenize_variants(
        tokenizer,
        normalized.as_str(),
        vocabulary,
        HotwordPathKind::Reading,
    ) {
        Ok(paths) => paths,
        Err(e) => {
            return Err(HotwordEntryError::Text(e));
        },
    };
    let katakana = to_katakana(normalized.as_str());
    if katakana == normalized {
        push_labeled(out, hiragana, entry_id, surface, HotwordPathKind::Reading);
        return Ok(());
    }
    let more = match tokenize_variants(tokenizer, katakana.as_str(), vocabulary, HotwordPathKind::Reading) {
        Ok(paths) => paths,
        Err(e) => {
            return Err(HotwordEntryError::Text(e));
        },
    };
    let ghost start = path_views(out@);
    push_labeled(out, hiragana, entry_id, surface, HotwordPathKind::Reading);
    push_labeled(out, more, entry_id, surface, HotwordPathKind::Reading);
    assert(path_views(out@) =~= start + (labeled(
        paths_view(hiragana@),
        entry_id,
        surface@,
        HotwordPathKind::Reading,
    ) + labeled(paths_view(more@), entry_id, surface@, HotwordPathKind::Reading)));
    Ok(())
}

fn entry_paths_exec(
    tokenizer: HotwordTokenizer,
    entry: &HotwordEntry,
    entry_id: usize,
    vocabulary: &[String],
    out: &mut Vec<HotwordTokenPath>,
) -> (r: Result<(), HotwordEntryError>)
    ensures
        match entry_paths(tokenizer, *entry, entry_id, vocabulary@) {
            Ok(paths) => r is Ok && path_views(final(out)@) == path_views(old(out)@) + paths,
            Err(e) => r == Err::<(), HotwordEntryError>(e),
        },
{
    let chars = chars_of(entry.surface.as_str());
    if trimmed_chars(&chars).len() == 0 {
        return Err(HotwordEntryError::EmptySurface);
    }
    let ghost start = path_views(out@);
    match tokenize_variants(tokenizer, entry.surface.as_str(), vocabulary, HotwordPathKind::Surface) {
        Ok(paths) => {
            push_labeled(out, paths, entry_id, &entry.surface, HotwordPathKind::Surface);
        },
        Err(e) => {
            if entry.readings.len() == 0 {
                return Err(HotwordEntryError::Text(e));
            }
            assert(path_views(out@) =~= start + Seq::<PathView>::empty());
        },
    }
    let ghost first = match spec_tokenize_variants(
        tokenizer,
        entry.surface@,
        vocabulary@,
        HotwordPathKind::Surface,
    ) {
        Ok(paths) => labeled(paths, entry_id, entry.surface@, HotwordPathKind::Surface),
        Err(_) => Seq::<PathView>::empty(),
    };
    assert(path_views(out@) =~= start + first);
    assert(path_views(out@) =~= start + first + Seq::<PathView>::empty());
    let mut index: usize = 0;
    while index < entry.readings.len()
        invariant
            index <= entry.readings.len(),
            trim(entry.surface@).len() > 0,
            spec_tokenize_variants(tokenizer, entry.surface@, vocabulary@, HotwordPathKind::Surface)
                is Ok || entry.readings.len() > 0,
            first == match spec_tokenize_variants(
                tokenizer,
                entry.surface@,
                vocabulary@,
                HotwordPathKind::Surface,
            ) {
                Ok(paths) => labeled(paths, entry_id, entry.surface@, HotwordPathKind::Surface),
                Err(_) => Seq::<PathView>::empty(),
            },
            readings_paths(
                tokenizer,
                entry.readings@,
                index as int,
                entry_id,
                entry.surface@,
                vocabulary@,
            ) is Ok,
            path_views(out@) == start + first + readings_paths(
                tokenizer,
                entry.readings@,
                index as int,
                entry_id,
                entry.surface@,
                vocabulary@,
            )->Ok_0,
        decreases entry.readings.len() - index,
    {
        let ghost before = path_views(out@);
        let ghost done = readings_paths(
            tokenizer,
            entry.readings@,
            index as int,
            entry_id,
            entry.surface@,
            vocabulary@,
        )->Ok_0;
        match reading_paths_exec(
            tokenizer,
            &entry.readings[index],
            entry_id,
            &entry.surface,
            vocabulary,
            out,
        ) {
            Err(e) => {
                proof {
                    lemma_reading_refusal_is_final(
                        tokenizer,
                        entry.readings@,
                        index + 1,
                        entry.readings.len() as int,
                        entry_id,
                        entry.surface@,
                        vocabulary@,
                    );
                }
                return Err(e);
            },
            Ok(()) => {
                let ghost more = reading_paths(
                    tokenizer,
                    entry.readings@[index as int]@,
                    entry_id,
                    entry.surface@,
                    vocabulary@,
                )->Ok_0;
                assert(path_views(out@) =~= start + first + (done + more));
            },
        }
        index = index + 1;
    }
    Ok(())
}

proof fn lemma_reading_refusal_is_final(
    tokenizer: HotwordTokenizer,
    readings: Seq<String>,
    count: int,
    last: int,
    entry_id: usize,
    surface: Seq<char>,
    vocabulary: Seq<String>,
)
    requires
        0 <= count <= last,
        readings_paths(tokenizer, readings, count, entry_id, surface, vocabulary) is Err,
    ensures
        readings_paths(tokenizer, readings, last, entry_id, surface, vocabulary) == readings_paths(
            tokenizer,
            readings,
            count,
            entry_id,
            surface,
            vocabulary,
        ),
    decreases last - count,
{
    if count < last {
        lemma_reading_refusal_is_final(
            tokenizer,
            readings,
            count,
            last - 1,
            entry_id,
            surface,
            vocabulary,
        );
    }
}

proof fn lemma_entry_refusal_is_final(
    tokenizer: HotwordTokenizer,
    entries: Seq<HotwordEntry>,
    count: int,
    last: int,
    vocabulary: Seq<String>,
)
    requires
        0 <= count <= last,
        entries_paths(tokenizer, entries, count, vocabulary) is Err,
    ensures
        entries_paths(tokenizer, entries, last, vocabulary) == entries_paths(
            tokenizer,
            entries,
            count,
            vocabulary,
        ),
    decreases last - count,
{
    if count < last {
        lemma_entry_refusal_is_final(tokenizer, entries, count, last - 1, vocabulary);
    }
}

/// The token paths of every entry, in entry order; each entry contributes
/// its surface paths and then the paths of each reading.
pub fn tokenize_hotword_entries(
    tokenizer: HotwordTokenizer,
    entries: &[HotwordEntry],
    vocabulary: &[String],
) -> (r: Result<Vec<HotwordTokenPath>, HotwordEntryError>)
    ensures
        reports_paths(r, entries_paths(tokenizer, entries@, entries@.len() as int, vocabulary@)),
{
    let mut out: Vec<HotwordTokenPath> = Vec::new();
    let mut index: usize = 0;
    while index < entries.len()
        invariant
            index <= entries.len(),
            entries_paths(tokenizer, entries@, index as int, vocabulary@) is Ok,
            path_views(out@) == entries_paths(tokenizer, entries@, index as int, vocabulary@)->Ok_0,
        decreases entries.len() - index,
    {
        let ghost done = entries_paths(tokenizer, entries@, index as int, vocabulary@)->Ok_0;
        match entry_paths_exec(tokenizer, &entries[index], index, vocabulary, &mut out) {
            Err(e) => {
                proof {
                    lemma_entry_refusal_is_final(
                        tokenizer,
                        entries@,
                        index + 1,
                        entries.len() as int,
                        vocabulary@,
                    );
                }
                return Err(e);
            },
            Ok(()) => {},
        }
        index = index + 1;
    }
    Ok(out)
}

} // verus!
