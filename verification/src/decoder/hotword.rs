//! Hotword readings and the matches reported in decoded token sequences.
use vstd::prelude::*;
use unicode_normalization::UnicodeNormalization;
use crate::backend::hotword_entries::HotwordEntryError;
use crate::text::{char_from_u32, string_of, trim, trimmed_chars, chars_of};

verus! {

#[derive(Debug, Clone, Copy, PartialEq, Eq, Structural)]
pub enum HotwordPathKind {
    Surface,
    Reading,
}

/// A hotword the host registers: the text written in the transcript and
/// optional spoken readings used for matching.
#[derive(Debug, Clone, PartialEq)]
pub struct HotwordEntry {
    pub surface: String,
    pub readings: Vec<String>,
}

impl HotwordEntry {
    /// An entry with no reading; refused when the surface is blank.
    pub fn new(surface: String) -> (r: Result<Self, HotwordEntryError>)
        ensures
            trim(surface@).len() == 0 ==> r == Err::<HotwordEntry, HotwordEntryError>(
                HotwordEntryError::EmptySurface,
            ),
            trim(surface@).len() > 0 ==> (r matches Ok(entry) && entry.surface@ == surface@
                && entry.readings@.len() == 0),
    {
        let chars = chars_of(surface.as_str());
        if trimmed_chars(&chars).len() == 0 {
            return Err(HotwordEntryError::EmptySurface);
        }
        Ok(HotwordEntry { surface, readings: Vec::new() })
    }
}

/// One tokenized spelling of a registered hotword.
#[derive(Debug, Clone, PartialEq)]
pub struct HotwordTokenPath {
    pub tokens: Vec<usize>,
    pub entry_id: usize,
    pub surface: String,
    pub kind: HotwordPathKind,
}

/// One registered hotword found in a decoded token sequence.
#[derive(Debug, Clone, PartialEq)]
pub struct HotwordMatch {
    pub start_token: usize,
    pub end_token: usize,
    pub entry_id: usize,
    pub surface: String,
    pub kind: HotwordPathKind,
}

/// The NFKC (compatibility composition) normal form of `s`.
pub uninterp spec fn unicode_nfkc(s: Seq<char>) -> Seq<char>;

/// `UnicodeNormalization::nfkc` from the `unicode-normalization` crate,
/// collected into characters. The contract only names the result: it is the
/// NFKC form of the argument and nothing about its contents is claimed.
#[verifier::external_body]
pub(crate) fn nfkc_chars(s: &str) -> (r: Vec<char>)
    ensures
        r@ == unicode_nfkc(s@),
{
    s.nfkc().collect()
}

/// Full-width katakana letters (U+30A1..=U+30F6) map to the hiragana letter
/// 0x60 code points below; every other character is kept.
pub open spec fn katakana_to_hiragana(c: char) -> char {
    let v = c as u32;
    if 0x30A1 <= v <= 0x30F6 {
        ((v - 0x60) as u32) as char
    } else {
        c
    }
}

/// Hiragana letters (U+3041..=U+3096) map to the katakana letter 0x60 code
/// points above; every other character is kept.
pub open spec fn hiragana_to_katakana(c: char) -> char {
    let v = c as u32;
    if 0x3041 <= v <= 0x3096 {
        ((v + 0x60) as u32) as char
    } else {
        c
    }
}

pub open spec fn spec_normalize_reading(reading: Seq<char>) -> Seq<char> {
    unicode_nfkc(reading).map_values(|c: char| katakana_to_hiragana(c))
}

/// Converts one katakana letter to hiragana.
pub fn katakana_char_to_hiragana(c: char) -> (r: char)
    ensures
        r == katakana_to_hiragana(c),
{
    let v = c as u32;
    if 0x30A1 <= v && v <= 0x30F6 {
        match char_from_u32(v - 0x60) {
            Some(converted) => {
                proof {
                    vstd::utf8::char_u32_cast(converted, (v - 0x60) as u32);
                }
                converted
            },
            None => c,
        }
    } else {
        c
    }
}

/// Converts one hiragana letter to katakana.
pub fn hiragana_char_to_katakana(c: char) -> (r: char)
    ensures
        r == hiragana_to_katakana(c),
{
    let v = c as u32;
    if 0x3041 <= v && v <= 0x3096 {
        match char_from_u32(v + 0x60) {
            Some(converted) => {
                proof {
                    vstd::utf8::char_u32_cast(converted, (v + 0x60) as u32);
                }
                converted
            },
            None => c,
        }
    } else {
        c
    }
}

/// Normalizes a Japanese reading to hiragana after compatibility
/// normalization, so half-width katakana follows the full-width path.
pub fn normalize_reading(reading: &str) -> (r: String)
    ensures
        r@ == spec_normalize_reading(reading@),
{
    let composed = nfkc_chars(reading);
    let mut out: Vec<char> = Vec::new();
    let mut index: usize = 0;
    while index < composed.len()
        invariant
            index <= composed.len(),
            out@ == composed@.take(index as int).map_values(|c: char| katakana_to_hiragana(c)),
        decreases composed.len() - index,
    {
        let c = katakana_char_to_hiragana(composed[index]);
        out.push(c);
        assert(composed@.take(index + 1).map_values(|c: char| katakana_to_hiragana(c))
            =~= composed@.take(index as int).map_values(|c: char| katakana_to_hiragana(c)).push(c));
        index = index + 1;
    }
    assert(composed@.take(composed.len() as int) =~= composed@);
    string_of(&out)
}

/// Why a set of hotword token paths cannot form a context graph.
#[derive(Debug, Clone, Copy, PartialEq, Eq, Structural)]
pub enum HotwordGraphError {
    /// Some path has no token.
    EmptyPath,
    /// The path's surface is non-empty but only whitespace.
    BlankSurface { path: usize },
    /// The path's phrase multiplier is not finite and positive.
    InadmissiblePhraseMultiplier { path: usize },
    /// The path spells the same tokens as `previous` with another surface.
    AmbiguousSurface { previous: usize, path: usize },
    /// The named path `short` is a proper prefix of path `long`.
    TerminalPrefix { short: usize, long: usize },
}

/// The first path whose surface is blank or whose multiplier is refused.
pub open spec fn first_bad_entry(
    paths: Seq<HotwordTokenPath>,
    phrase_admissible: Seq<bool>,
    count: int,
) -> Option<HotwordGraphError>
    decreases count,
{
    if count <= 0 {
        None
    } else {
        match first_bad_entry(paths, phrase_admissible, count - 1) {
            Some(e) => Some(e),
            None => {
                let p = count - 1;
                if paths[p].surface@.len() > 0 && trim(paths[p].surface@).len() == 0 {
                    Some(HotwordGraphError::BlankSurface { path: p as usize })
                } else if !phrase_admissible[p] {
                    Some(HotwordGraphError::InadmissiblePhraseMultiplier { path: p as usize })
                } else {
                    None
                }
            },
        }
    }
}

/// The latest path before `path` that spells the same tokens.
pub open spec fn latest_same_tokens(paths: Seq<HotwordTokenPath>, path: int, below: int) -> Option<
    int,
>
    decreases below,
{
    if below <= 0 {
        None
    } else if paths[below - 1].tokens@ == paths[path].tokens@ {
        Some(below - 1)
    } else {
        latest_same_tokens(paths, path, below - 1)
    }
}

/// The first path that spells the tokens of an earlier path with another
/// surface, reported with the latest such earlier path.
pub open spec fn first_ambiguity(paths: Seq<HotwordTokenPath>, count: int) -> Option<
    HotwordGraphError,
>
    decreases count,
{
    if count <= 0 {
        None
    } else {
        match first_ambiguity(paths, count - 1) {
            Some(e) => Some(e),
            None => match latest_same_tokens(paths, count - 1, count - 1) {
                Some(previous) => if paths[previous].surface@ != paths[count - 1].surface@ {
                    Some(
                        HotwordGraphError::AmbiguousSurface {
                            previous: previous as usize,
                            path: (count - 1) as usize,
                        },
                    )
                } else {
                    None
                },
                None => None,
            },
        }
    }
}

/// Whether named path `short` is a proper prefix of path `long`.
pub open spec fn is_terminal_prefix(paths: Seq<HotwordTokenPath>, short: int, long: int) -> bool {
    &&& short != long
    &&& paths[short].surface@.len() > 0
    &&& paths[short].tokens@.len() < paths[long].tokens@.len()
    &&& paths[long].tokens@.take(paths[short].tokens@.len() as int) == paths[short].tokens@
}

/// Whether (short, long) is a terminal-prefix pair and no pair comes
/// before it in index order.
pub open spec fn is_first_terminal_prefix(paths: Seq<HotwordTokenPath>, short: int, long: int) -> bool {
    &&& 0 <= short < paths.len()
    &&& 0 <= long < paths.len()
    &&& is_terminal_prefix(paths, short, long)
    &&& forall|s2: int, l2: int|
        0 <= s2 < paths.len() && 0 <= l2 < paths.len() && #[trigger] is_terminal_prefix(
            paths,
            s2,
            l2,
        ) ==> s2 > short || (s2 == short && l2 >= long)
}

/// The first (short, long) pair, in index order, with a terminal prefix.
pub open spec fn first_terminal_prefix(paths: Seq<HotwordTokenPath>) -> Option<HotwordGraphError> {
    if exists|short: int, long: int| is_first_terminal_prefix(paths, short, long) {
        let (short, long) = choose|short: int, long: int| is_first_terminal_prefix(paths, short, long);
        Some(HotwordGraphError::TerminalPrefix { short: short as usize, long: long as usize })
    } else {
        None
    }
}

/// The checks of a graph build, in the order the build makes them.
pub open spec fn spec_validate_hotword_paths(
    paths: Seq<HotwordTokenPath>,
    phrase_admissible: Seq<bool>,
) -> Result<(), HotwordGraphError> {
    if exists|p: int| 0 <= p < paths.len() && paths[p].tokens@.len() == 0 {
        Err(HotwordGraphError::EmptyPath)
    } else if first_bad_entry(paths, phrase_admissible, paths.len() as int) is Some {
        Err(first_bad_entry(paths, phrase_admissible, paths.len() as int).unwrap())
    } else if first_ambiguity(paths, paths.len() as int) is Some {
        Err(first_ambiguity(paths, paths.len() as int).unwrap())
    } else if first_terminal_prefix(paths) is Some {
        Err(first_terminal_prefix(paths).unwrap())
    } else {
        Ok(())
    }
}

proof fn lemma_first_terminal_prefix_exists(paths: Seq<HotwordTokenPath>, short: int, long: int)
    requires
        0 <= short < paths.len(),
        0 <= long < paths.len(),
        is_terminal_prefix(paths, short, long),
    ensures
        first_terminal_prefix(paths) is Some,
    decreases short, long,
{
    if !is_first_terminal_prefix(paths, short, long) {
        let (s2, l2) = choose|s2: int, l2: int|
            0 <= s2 < paths.len() && 0 <= l2 < paths.len() && #[trigger] is_terminal_prefix(paths, s2, l2) && !(
            s2 > short || (s2 == short && l2 >= long));
        lemma_first_terminal_prefix_exists(paths, s2, l2);
    }
}

/// Paths that pass validation never shadow each other: no named path's
/// tokens are a proper prefix of another path's tokens, whichever of the two
/// comes first in the list.
pub proof fn lemma_valid_paths_have_no_named_prefix(paths: Seq<HotwordTokenPath>, phrase_admissible: Seq<bool>)
    ensures
        spec_validate_hotword_paths(paths, phrase_admissible) is Ok ==> forall|a: int, b: int|
            0 <= a < paths.len() && 0 <= b < paths.len() && paths[a].surface@.len() > 0
                && paths[a].tokens@.len() < paths[b].tokens@.len() ==> #[trigger] paths[b].tokens@.take(
                paths[a].tokens@.len() as int,
            ) != #[trigger] paths[a].tokens@,
{
    if spec_validate_hotword_paths(paths, phrase_admissible) is Ok {
        assert forall|a: int, b: int|
            0 <= a < paths.len() && 0 <= b < paths.len() && paths[a].surface@.len() > 0
                && paths[a].tokens@.len() < paths[b].tokens@.len() implies #[trigger] paths[b].tokens@.take(
                paths[a].tokens@.len() as int,
            ) != #[trigger] paths[a].tokens@ by {
            if paths[b].tokens@.take(paths[a].tokens@.len() as int) == paths[a].tokens@ {
                assert(is_terminal_prefix(paths, a, b));
                lemma_first_terminal_prefix_exists(paths, a, b);
            }
        }
    }
}

/// Whether `long` starts with all of `short`, and is longer.
fn is_proper_prefix(short: &Vec<usize>, long: &Vec<usize>) -> (r: bool)
    ensures
        r == (short@.len() < long@.len() && long@.take(short@.len() as int) == short@),
{
    if short.len() >= long.len() {
        return false;
    }
    let mut k: usize = 0;
    while k < short.len()
        invariant
            k <= short.len() < long.len(),
            forall|i: int| 0 <= i < k ==> long@[i] == short@[i],
        decreases short.len() - k,
    {
        if long[k] != short[k] {
            assert(long@.take(short@.len() as int)[k as int] != short@[k as int]);
            return false;
        }
        k = k + 1;
    }
    assert(long@.take(short@.len() as int) =~= short@);
    true
}

/// Checks hotword token paths before a context graph is built from them:
/// no empty path, no blank surface, no refused phrase multiplier (given per
/// path), no two surfaces for one token path, and no named path that is a
/// proper prefix of another.
pub fn validate_hotword_paths(paths: &[HotwordTokenPath], phrase_admissible: &[bool]) -> (r: Result<
    (),
    HotwordGraphError,
>)
    requires
        phrase_admissible.len() == paths.len(),
    ensures
        r == spec_validate_hotword_paths(paths@, phrase_admissible@),
{
    let mut p: usize = 0;
    while p < paths.len()
        invariant
            p <= paths.len(),
            forall|q: int| 0 <= q < p ==> (#[trigger] paths@[q]).tokens@.len() > 0,
        decreases paths.len() - p,
    {
        if paths[p].tokens.len() == 0 {
            return Err(HotwordGraphError::EmptyPath);
        }
        p = p + 1;
    }
    p = 0;
    while p < paths.len()
        invariant
            p <= paths.len(),
            phrase_admissible.len() == paths.len(),
            forall|q: int| 0 <= q < paths.len() ==> (#[trigger] paths@[q]).tokens@.len() > 0,
            first_bad_entry(paths@, phrase_admissible@, p as int) is None,
        decreases paths.len() - p,
    {
        let surface = chars_of(paths[p].surface.as_str());
        if surface.len() > 0 && trimmed_chars(&surface).len() == 0 {
            proof {
                lemma_first_bad_entry_is_final(paths@, phrase_admissible@, p + 1, paths.len() as int);
            }
            return Err(HotwordGraphError::BlankSurface { path: p });
        }
        if !phrase_admissible[p] {
            proof {
                lemma_first_bad_entry_is_final(paths@, phrase_admissible@, p + 1, paths.len() as int);
            }
            return Err(HotwordGraphError::InadmissiblePhraseMultiplier { path: p });
        }
        p = p + 1;
    }
    p = 0;
    while p < paths.len()
        invariant
            p <= paths.len(),
            forall|q: int| 0 <= q < paths.len() ==> (#[trigger] paths@[q]).tokens@.len() > 0,
            first_bad_entry(paths@, phrase_admissible@, paths.len() as int) is None,
            first_ambiguity(paths@, p as int) is None,
        decreases paths.len() - p,
    {
        let mut k: usize = p;
        while k > 0
            invariant
                k <= p < paths.len(),
                latest_same_tokens(paths@, p as int, p as int) == latest_same_tokens(
                    paths@,
                    p as int,
                    k as int,
                ),
            ensures
                k <= p,
                latest_same_tokens(paths@, p as int, p as int) == latest_same_tokens(
                    paths@,
                    p as int,
                    k as int,
                ),
                k > 0 ==> paths@[k - 1].tokens@ == paths@[p as int].tokens@,
            decreases k,
        {
            if crate::backend::parakeet::same_path(&paths[k - 1].tokens, &paths[p].tokens) {
                break;
            }
            k = k - 1;
        }
        if k > 0 {
            let previous = k - 1;
            assert(latest_same_tokens(paths@, p as int, p as int) == Some(previous as int));
            if paths[previous].surface != paths[p].surface {
                proof {
                    lemma_first_ambiguity_is_final(paths@, p + 1, paths.len() as int);
                }
                return Err(HotwordGraphError::AmbiguousSurface { previous, path: p });
            }
        }
        p = p + 1;
    }
    let mut short: usize = 0;
    while short < paths.len()
        invariant
            short <= paths.len(),
            forall|q: int| 0 <= q < paths.len() ==> (#[trigger] paths@[q]).tokens@.len() > 0,
            first_bad_entry(paths@, phrase_admissible@, paths.len() as int) is None,
            first_ambiguity(paths@, paths.len() as int) is None,
            forall|s2: int, l2: int|
                0 <= s2 < short && 0 <= l2 < paths.len() ==> !#[trigger] is_terminal_prefix(
                    paths@,
                    s2,
                    l2,
                ),
        decreases paths.len() - short,
    {
        let mut long: usize = 0;
        while long < paths.len()
            invariant
                short < paths.len(),
                long <= paths.len(),
                first_bad_entry(paths@, phrase_admissible@, paths.len() as int) is None,
                first_ambiguity(paths@, paths.len() as int) is None,
                forall|q: int| 0 <= q < paths.len() ==> (#[trigger] paths@[q]).tokens@.len() > 0,
                forall|s2: int, l2: int|
                    0 <= s2 < short && 0 <= l2 < paths.len() ==> !#[trigger] is_terminal_prefix(
                        paths@,
                        s2,
                        l2,
                    ),
                forall|l2: int| 0 <= l2 < long ==> !#[trigger] is_terminal_prefix(paths@, short as int, l2),
            decreases paths.len() - long,
        {
            let named = !paths[short].surface.as_str().is_empty();
            if short != long && named && is_proper_prefix(&paths[short].tokens, &paths[long].tokens) {
                proof {
                    lemma_first_terminal_prefix_is(paths@, short as int, long as int);
                }
                return Err(HotwordGraphError::TerminalPrefix { short, long });
            }
            long = long + 1;
        }
        short = short + 1;
    }
    Ok(())
}

proof fn lemma_first_terminal_prefix_is(paths: Seq<HotwordTokenPath>, short: int, long: int)
    requires
        0 <= short < paths.len(),
        0 <= long < paths.len(),
        is_terminal_prefix(paths, short, long),
        forall|s2: int, l2: int|
            0 <= s2 < short && 0 <= l2 < paths.len() ==> !#[trigger] is_terminal_prefix(paths, s2, l2),
        forall|l2: int| 0 <= l2 < long ==> !#[trigger] is_terminal_prefix(paths, short, l2),
    ensures
        first_terminal_prefix(paths) == Some(HotwordGraphError::TerminalPrefix {
            short: short as usize,
            long: long as usize,
        }),
{
    assert(is_first_terminal_prefix(paths, short, long));
    let (cs, cl) = choose|s1: int, l1: int| is_first_terminal_prefix(paths, s1, l1);
    assert(is_first_terminal_prefix(paths, cs, cl));
    assert(cs == short && cl == long);
}

proof fn lemma_first_bad_entry_is_final(
    paths: Seq<HotwordTokenPath>,
    phrase_admissible: Seq<bool>,
    count: int,
    last: int,
)
    requires
        0 <= count <= last,
        first_bad_entry(paths, phrase_admissible, count) is Some,
    ensures
        first_bad_entry(paths, phrase_admissible, last) == first_bad_entry(
            paths,
            phrase_admissible,
            count,
        ),
    decreases last - count,
{
    if count < last {
        lemma_first_bad_entry_is_final(paths, phrase_admissible, count, last - 1);
    }
}

proof fn lemma_first_ambiguity_is_final(paths: Seq<HotwordTokenPath>, count: int, last: int)
    requires
        0 <= count <= last,
        first_ambiguity(paths, count) is Some,
    ensures
        first_ambiguity(paths, last) == first_ambiguity(paths, count),
    decreases last - count,
{
    if count < last {
        lemma_first_ambiguity_is_final(paths, count, last - 1);
    }
}

/// Whether path `q` is a nameable hotword spelled by `tokens` from `cursor`.
pub open spec fn path_matches_at(
    paths: Seq<HotwordTokenPath>,
    tokens: Seq<usize>,
    cursor: int,
    q: int,
) -> bool {
    &&& 0 <= q < paths.len()
    &&& paths[q].surface@.len() > 0
    &&& 0 <= cursor
    &&& cursor + paths[q].tokens@.len() <= tokens.len()
    &&& tokens.subrange(cursor, cursor + paths[q].tokens@.len()) == paths[q].tokens@
}

pub open spec fn kind_rank(kind: HotwordPathKind) -> int {
    match kind {
        HotwordPathKind::Surface => 0,
        HotwordPathKind::Reading => 1,
    }
}

/// Whether matching path `r` ranks below `q`: it ends earlier, or ends
/// together with a surface path where `q` is a reading, or ties and comes
/// first.
pub open spec fn match_ranks_below(paths: Seq<HotwordTokenPath>, r: int, q: int) -> bool {
    let end_r = paths[r].tokens@.len();
    let end_q = paths[q].tokens@.len();
    ||| end_r < end_q
    ||| end_r == end_q && kind_rank(paths[r].kind) < kind_rank(paths[q].kind)
    ||| end_r == end_q && kind_rank(paths[r].kind) == kind_rank(paths[q].kind) && r < q
}

/// Whether `q` is the longest matching path at `cursor`, readings before
/// surfaces of the same length and later paths before earlier ones.
pub open spec fn is_best_match(
    paths: Seq<HotwordTokenPath>,
    tokens: Seq<usize>,
    cursor: int,
    q: int,
) -> bool {
    &&& path_matches_at(paths, tokens, cursor, q)
    &&& forall|r: int|
        #![trigger path_matches_at(paths, tokens, cursor, r)]
        path_matches_at(paths, tokens, cursor, r) && r != q ==> match_ranks_below(paths, r, q)
}

pub open spec fn best_match(paths: Seq<HotwordTokenPath>, tokens: Seq<usize>, cursor: int) -> Option<
    int,
> {
    if exists|q: int| is_best_match(paths, tokens, cursor, q) {
        Some(choose|q: int| is_best_match(paths, tokens, cursor, q))
    } else {
        None
    }
}

/// A match as the specification sees it: span, entry, surface, kind.
pub open spec fn match_view(m: HotwordMatch) -> (usize, usize, usize, Seq<char>, HotwordPathKind) {
    (m.start_token, m.end_token, m.entry_id, m.surface@, m.kind)
}

pub open spec fn match_views(matches: Seq<HotwordMatch>) -> Seq<
    (usize, usize, usize, Seq<char>, HotwordPathKind),
> {
    matches.map_values(|m: HotwordMatch| match_view(m))
}

/// The matches found from `cursor` on: the best match where one starts,
/// then the search resumes after it; otherwise one token later.
pub open spec fn spec_find_matches(
    paths: Seq<HotwordTokenPath>,
    tokens: Seq<usize>,
    cursor: int,
) -> Seq<(usize, usize, usize, Seq<char>, HotwordPathKind)>
    decreases tokens.len() - cursor,
{
    if cursor < 0 || cursor >= tokens.len() {
        Seq::empty()
    } else {
        match best_match(paths, tokens, cursor) {
            Some(q) => {
                let end = cursor + paths[q].tokens@.len();
                if end <= cursor {
                    Seq::empty()
                } else {
                    seq![
                        (
                            cursor as usize,
                            end as usize,
                            paths[q].entry_id,
                            paths[q].surface@,
                            paths[q].kind,
                        ),
                    ] + spec_find_matches(paths, tokens, end)
                }
            },
            None => spec_find_matches(paths, tokens, cursor + 1),
        }
    }
}

/// Whether `tokens[cursor..]` starts with `path`.
fn spells_at(tokens: &[usize], cursor: usize, path: &Vec<usize>) -> (r: bool)
    requires
        cursor <= tokens.len(),
    ensures
        r == (cursor + path.len() <= tokens.len() && tokens@.subrange(
            cursor as int,
            cursor + path.len(),
        ) == path@),
{
    if path.len() > tokens.len() - cursor {
        return false;
    }
    let mut k: usize = 0;
    while k < path.len()
        invariant
            k <= path.len(),
            cursor + path.len() <= tokens.len(),
            forall|i: int| 0 <= i < k ==> tokens@[cursor + i] == path@[i],
        decreases path.len() - k,
    {
        if tokens[cursor + k] != path[k] {
            assert(tokens@.subrange(cursor as int, cursor + path.len())[k as int] != path@[k as int]);
            return false;
        }
        k = k + 1;
    }
    assert(tokens@.subrange(cursor as int, cursor + path.len()) =~= path@);
    true
}

/// Non-overlapping longest registered paths in a completed token sequence,
/// left to right; a reading wins over a surface of the same length.
pub fn find_hotword_matches(paths: &[HotwordTokenPath], token_ids: &[usize]) -> (r: Vec<
    HotwordMatch,
>)
    requires
        forall|q: int| 0 <= q < paths.len() ==> (#[trigger] paths@[q]).tokens@.len() > 0,
    ensures
        match_views(r@) == spec_find_matches(paths@, token_ids@, 0),
{
    let mut matches: Vec<HotwordMatch> = Vec::new();
    let mut cursor: usize = 0;
    while cursor < token_ids.len()
        invariant
            cursor <= token_ids.len(),
            forall|q: int| 0 <= q < paths.len() ==> (#[trigger] paths@[q]).tokens@.len() > 0,
            spec_find_matches(paths@, token_ids@, 0) == match_views(matches@) + spec_find_matches(
                paths@,
                token_ids@,
                cursor as int,
            ),
        decreases token_ids.len() - cursor,
    {
        let mut best: Option<usize> = None;
        let mut path_id: usize = 0;
        while path_id < paths.len()
            invariant
                path_id <= paths.len(),
                cursor < token_ids.len(),
                match best {
                    Some(q) => q < path_id && path_matches_at(paths@, token_ids@, cursor as int, q as int)
                        && forall|r: int|
                        #![trigger path_matches_at(paths@, token_ids@, cursor as int, r)]
                        0 <= r < path_id && path_matches_at(paths@, token_ids@, cursor as int, r)
                            && r != q ==> match_ranks_below(paths@, r, q as int),
                    None => forall|r: int|
                        #![trigger path_matches_at(paths@, token_ids@, cursor as int, r)]
                        0 <= r < path_id ==> !path_matches_at(paths@, token_ids@, cursor as int, r),
                },
            decreases paths.len() - path_id,
        {
            let path = &paths[path_id];
            let named = !path.surface.as_str().is_empty();
            if named && spells_at(token_ids, cursor, &path.tokens) {
                let better = match best {
                    None => true,
                    Some(q) => {
                        let end_q = paths[q].tokens.len();
                        let end = path.tokens.len();
                        let rank_q: u8 = match paths[q].kind {
                            HotwordPathKind::Surface => 0,
                            HotwordPathKind::Reading => 1,
                        };
                        let rank: u8 = match path.kind {
                            HotwordPathKind::Surface => 0,
                            HotwordPathKind::Reading => 1,
                        };
                        end > end_q || (end == end_q && rank >= rank_q)
                    },
                };
                if better {
                    best = Some(path_id);
                }
            }
            assert(named == (paths@[path_id as int].surface@.len() > 0));
            path_id = path_id + 1;
        }
        match best {
            Some(q) => {
                proof {
                    assert(is_best_match(paths@, token_ids@, cursor as int, q as int));
                    let chosen = choose|c: int| is_best_match(paths@, token_ids@, cursor as int, c);
                    if chosen != q as int {
                        assert(match_ranks_below(paths@, chosen, q as int));
                        assert(match_ranks_below(paths@, q as int, chosen));
                    }
                }
                let end = cursor + paths[q].tokens.len();
                let ghost before = matches@;
                matches.push(
                    HotwordMatch {
                        start_token: cursor,
                        end_token: end,
                        entry_id: paths[q].entry_id,
                        surface: paths[q].surface.clone(),
                        kind: paths[q].kind,
                    },
                );
                proof {
                    assert(match_views(matches@) =~= match_views(before).push(
                        (cursor, end, paths@[q as int].entry_id, paths@[q as int].surface@, paths@[q as int].kind),
                    ));
                }
                cursor = end;
            },
            None => {
                proof {
                    assert(!exists|c: int| is_best_match(paths@, token_ids@, cursor as int, c));
                }
                cursor = cursor + 1;
            },
        }
    }
    proof {
        assert(match_views(matches@) + spec_find_matches(paths@, token_ids@, cursor as int)
            =~= match_views(matches@));
    }
    matches
}

/// Reported matches lie inside the token sequence, each is non-empty, and
/// they come left to right without overlapping.
pub proof fn lemma_matches_are_ordered_and_disjoint(
    paths: Seq<HotwordTokenPath>,
    tokens: Seq<usize>,
    cursor: int,
)
    requires
        0 <= cursor,
        tokens.len() <= usize::MAX,
        forall|q: int| 0 <= q < paths.len() ==> (#[trigger] paths[q]).tokens@.len() > 0,
    ensures
        forall|i: int|
            0 <= i < spec_find_matches(paths, tokens, cursor).len() ==> {
                let m = #[trigger] spec_find_matches(paths, tokens, cursor)[i];
                cursor <= m.0 < m.1 <= tokens.len()
            },
        forall|i: int|
            0 <= i < spec_find_matches(paths, tokens, cursor).len() - 1 ==> (
            #[trigger] spec_find_matches(paths, tokens, cursor)[i]).1 <= spec_find_matches(
                paths,
                tokens,
                cursor,
            )[i + 1].0,
    decreases tokens.len() - cursor,
{
    if cursor < tokens.len() {
        match best_match(paths, tokens, cursor) {
            Some(q) => {
                assert(is_best_match(paths, tokens, cursor, q));
                let end = cursor + paths[q].tokens@.len();
                lemma_matches_are_ordered_and_disjoint(paths, tokens, end);
                let rest = spec_find_matches(paths, tokens, end);
                let all = spec_find_matches(paths, tokens, cursor);
                assert(end > cursor && end <= tokens.len());
                assert(all == seq![
                    (
                        cursor as usize,
                        end as usize,
                        paths[q].entry_id,
                        paths[q].surface@,
                        paths[q].kind,
                    ),
                ] + rest);
                assert forall|i: int| 0 <= i < all.len() implies {
                    let m = #[trigger] all[i];
                    cursor <= m.0 < m.1 <= tokens.len()
                } by {
                    if i > 0 {
                        assert(all[i] == rest[i - 1]);
                    }
                }
                assert forall|i: int| 0 <= i < all.len() - 1 implies (#[trigger] all[i]).1 <= all[i
                    + 1].0 by {
                    assert(all[i + 1] == rest[i]);
                    if i > 0 {
                        assert(all[i] == rest[i - 1]);
                    }
                }
            },
            None => {
                lemma_matches_are_ordered_and_disjoint(paths, tokens, cursor + 1);
                assert(spec_find_matches(paths, tokens, cursor) == spec_find_matches(
                    paths,
                    tokens,
                    cursor + 1,
                ));
            },
        }
    }
}

/// Hiragana and katakana letters correspond one to one: converting a letter
/// of either script to the other and back returns it.
pub proof fn lemma_kana_round_trip(c: char)
    ensures
        0x3041 <= c as u32 <= 0x3096 ==> katakana_to_hiragana(hiragana_to_katakana(c)) == c,
        0x30A1 <= c as u32 <= 0x30F6 ==> hiragana_to_katakana(katakana_to_hiragana(c)) == c,
{
}


/// A transcript token after hotword replacement: the decoded tokens
/// `first..end`, written as that one decoded token, or, for a registered
/// hotword, as the surface of match `matched`.
#[derive(Debug, Clone, Copy, PartialEq, Eq, Structural)]
pub struct HotwordSegment {
    pub first: usize,
    pub end: usize,
    pub matched: Option<usize>,
}

/// One segment per decoded token of `from..to`.
pub open spec fn single_segments(from: int, to: int) -> Seq<HotwordSegment>
    decreases to - from,
{
    if from >= to {
        Seq::empty()
    } else {
        seq![HotwordSegment { first: from as usize, end: (from + 1) as usize, matched: None }] + single_segments(
            from + 1,
            to,
        )
    }
}

/// The segments of decoded tokens `cursor..count` when matches `index..`
/// remain: single tokens up to the next match, the match, and the rest.
pub open spec fn spec_segments(matches: Seq<HotwordMatch>, count: int, cursor: int, index: int) -> Seq<
    HotwordSegment,
>
    decreases matches.len() - index,
{
    if index < 0 || index >= matches.len() {
        single_segments(cursor, count)
    } else {
        single_segments(cursor, matches[index].start_token as int) + seq![
            HotwordSegment {
                first: matches[index].start_token,
                end: matches[index].end_token,
                matched: Some(index as usize),
            },
        ] + spec_segments(matches, count, matches[index].end_token as int, index + 1)
    }
}

/// Matches in order, each non-empty, none overlapping the next, all within
/// `count` tokens: what `find_hotword_matches` returns.
pub open spec fn ordered_matches(matches: Seq<HotwordMatch>, count: int) -> bool {
    &&& forall|i: int|
        0 <= i < matches.len() ==> (#[trigger] matches[i]).start_token < matches[i].end_token <= count
    &&& forall|i: int| 0 <= i < matches.len() - 1 ==> (#[trigger] matches[i]).end_token <= matches[i + 1].start_token
}

/// Splits `count` decoded tokens into transcript tokens: every registered
/// hotword match becomes one token written with its surface, every other
/// decoded token stays one token.
#[verifier::rlimit(50)]
pub fn hotword_segments(count: usize, matches: &[HotwordMatch]) -> (r: Vec<HotwordSegment>)
    requires
        ordered_matches(matches@, count as int),
    ensures
        r@ == spec_segments(matches@, count as int, 0, 0),
        tiles(r@, 0, count as int),
{
    proof {
        lemma_segments_tile_the_tokens(matches@, count as int, 0, 0);
    }
    let mut out: Vec<HotwordSegment> = Vec::new();
    let mut cursor: usize = 0;
    let mut index: usize = 0;
    proof {
        assert(Seq::<HotwordSegment>::empty() + spec_segments(matches@, count as int, 0, 0) =~= spec_segments(
            matches@,
            count as int,
            0,
            0,
        ));
    }
    while index < matches.len()
        invariant
            index <= matches.len(),
            ordered_matches(matches@, count as int),
            cursor <= count,
            index < matches.len() ==> cursor <= matches@[index as int].start_token,
            out@ + spec_segments(matches@, count as int, cursor as int, index as int) == spec_segments(
                matches@,
                count as int,
                0,
                0,
            ),
        decreases matches.len() - index,
    {
        let start = matches[index].start_token;
        let end = matches[index].end_token;
        let ghost rest = spec_segments(matches@, count as int, end as int, index + 1);
        let ghost matched_segment = seq![HotwordSegment { first: start, end, matched: Some(index) }];
        while cursor < start
            invariant
                cursor <= start,
                start < end <= count,
                out@ + single_segments(cursor as int, start as int) + matched_segment + rest == spec_segments(
                    matches@,
                    count as int,
                    0,
                    0,
                ),
            decreases start - cursor,
        {
            let ghost before = out@;
            out.push(HotwordSegment { first: cursor, end: cursor + 1, matched: None });
            proof {
                let single = seq![HotwordSegment { first: cursor, end: (cursor + 1) as usize, matched: None }];
                assert(single_segments(cursor as int, start as int) == single + single_segments(
                    cursor + 1,
                    start as int,
                ));
                assert(out@ + single_segments(cursor + 1, start as int) + matched_segment + rest =~= before
                    + single_segments(cursor as int, start as int) + matched_segment + rest);
            }
            cursor = cursor + 1;
        }
        let ghost before = out@;
        out.push(HotwordSegment { first: start, end, matched: Some(index) });
        proof {
            assert(single_segments(start as int, start as int) =~= Seq::<HotwordSegment>::empty());
            assert(out@ + rest =~= before + single_segments(cursor as int, start as int) + matched_segment + rest);
            if index + 1 < matches.len() {
                assert(matches@[index as int].end_token <= matches@[index + 1].start_token);
            }
        }
        cursor = end;
        index = index + 1;
    }
    while cursor < count
        invariant
            cursor <= count,
            index == matches.len(),
            out@ + single_segments(cursor as int, count as int) == spec_segments(matches@, count as int, 0, 0),
        decreases count - cursor,
    {
        let ghost before = out@;
        out.push(HotwordSegment { first: cursor, end: cursor + 1, matched: None });
        proof {
            let single = seq![HotwordSegment { first: cursor, end: (cursor + 1) as usize, matched: None }];
            assert(single_segments(cursor as int, count as int) == single + single_segments(cursor + 1, count as int));
            assert(out@ + single_segments(cursor + 1, count as int) =~= before + single_segments(
                cursor as int,
                count as int,
            ));
        }
        cursor = cursor + 1;
    }
    proof {
        assert(single_segments(cursor as int, count as int) =~= Seq::<HotwordSegment>::empty());
        assert(out@ + Seq::<HotwordSegment>::empty() =~= out@);
    }
    out
}

/// Segments that tile the decoded tokens `from..to`, in order, each
/// non-empty.
pub open spec fn tiles(segments: Seq<HotwordSegment>, from: int, to: int) -> bool
    decreases segments.len(),
{
    if segments.len() == 0 {
        from == to
    } else {
        &&& segments[0].first == from
        &&& segments[0].first < segments[0].end
        &&& tiles(segments.drop_first(), segments[0].end as int, to)
    }
}

proof fn lemma_tiles_concat(x: Seq<HotwordSegment>, y: Seq<HotwordSegment>, a: int, b: int, c: int)
    requires
        tiles(x, a, b),
        tiles(y, b, c),
    ensures
        tiles(x + y, a, c),
    decreases x.len(),
{
    if x.len() > 0 {
        lemma_tiles_concat(x.drop_first(), y, x[0].end as int, b, c);
        assert((x + y).drop_first() =~= x.drop_first() + y);
    } else {
        assert(x + y =~= y);
    }
}

proof fn lemma_single_segments_tile(from: int, to: int)
    requires
        0 <= from <= to <= usize::MAX,
    ensures
        tiles(single_segments(from, to), from, to),
    decreases to - from,
{
    if from < to {
        lemma_single_segments_tile(from + 1, to);
        let rest = single_segments(from + 1, to);
        let first = seq![HotwordSegment { first: from as usize, end: (from + 1) as usize, matched: None }];
        assert((first + rest).drop_first() =~= rest);
    }
}

/// Hotword replacement loses no decoded token and repeats none: the
/// segments tile the decoded tokens in order.
pub proof fn lemma_segments_tile_the_tokens(matches: Seq<HotwordMatch>, count: int, cursor: int, index: int)
    requires
        0 <= cursor <= count <= usize::MAX,
        0 <= index <= matches.len(),
        ordered_matches(matches, count),
        index < matches.len() ==> cursor <= matches[index].start_token,
    ensures
        tiles(spec_segments(matches, count, cursor, index), cursor, count),
    decreases matches.len() - index,
{
    if index < matches.len() {
        let m = matches[index];
        lemma_single_segments_tile(cursor, m.start_token as int);
        if index + 1 < matches.len() {
            assert(matches[index].end_token <= matches[index + 1].start_token);
        }
        lemma_segments_tile_the_tokens(matches, count, m.end_token as int, index + 1);
        let one = seq![HotwordSegment { first: m.start_token, end: m.end_token, matched: Some(index as usize) }];
        let rest = spec_segments(matches, count, m.end_token as int, index + 1);
        assert(one.drop_first() =~= Seq::<HotwordSegment>::empty());
        assert(tiles(one, m.start_token as int, m.end_token as int)) by {
            reveal_with_fuel(tiles, 2);
        }
        lemma_tiles_concat(one, rest, m.start_token as int, m.end_token as int, count);
        lemma_tiles_concat(
            single_segments(cursor, m.start_token as int),
            one + rest,
            cursor,
            m.start_token as int,
            count,
        );
        assert(single_segments(cursor, m.start_token as int) + one + rest =~= single_segments(
            cursor,
            m.start_token as int,
        ) + (one + rest));
    } else {
        lemma_single_segments_tile(cursor, count);
    }
}

} // verus!
